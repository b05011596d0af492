//! The admission gate on concrete requests.
use network_gateway::admission::{AdmissionController, PendingObservation};
use network_gateway::ages::requester_label;
use network_gateway::classifier::Classifier;
use network_gateway::metrics::AdmissionMetrics;
use network_gateway::pool::{PoolId, RejectReason, Rejection};
use network_gateway::tables::{IdSet, RankTable};
use network_gateway::time::Duration;

const RANGE_VK: &[u8] = &[0x11; 4];
const AGG_VK: &[u8] = &[0x22; 4];
const AA: &[u8] = &[0xAA]; // rank 0 (high)
const BB: &[u8] = &[0xBB]; // rank 1 (low)

fn classifier() -> Classifier {
    Classifier::new(vec![RANGE_VK.to_vec()], vec![AGG_VK.to_vec()])
}

fn ranks(rows: &[(&[u8], u32)]) -> RankTable {
    let mut table = RankTable::new();
    for (addr, rank) in rows {
        assert!(table.insert(addr.to_vec(), *rank));
    }
    table
}

fn ids(list: &[&str]) -> IdSet {
    IdSet::from_ids(list.iter().map(|s| s.to_string()).collect())
}

fn complete(list: &[&str]) -> PendingObservation {
    PendingObservation::Complete(ids(list))
}

fn ms(n: u64) -> Duration {
    Duration::from_millis(n)
}

/// Caps 1 (or `range_cap`) and 2, no global cap, enforcing, priority off.
fn ctrl(range_cap: usize, ttl: Duration) -> AdmissionController {
    AdmissionController::new(
        classifier(),
        range_cap,
        2,
        None,
        true,
        ttl,
        RankTable::new(),
        false,
        Duration::from_secs(90),
    )
}

fn enforce_ctrl() -> AdmissionController {
    ctrl(1, Duration::from_secs(3600))
}

fn ranked_ctrl(
    enforce: bool,
    table: RankTable,
    priority_enable: bool,
    priority_ttl: Duration,
) -> AdmissionController {
    AdmissionController::new(
        classifier(),
        1,
        2,
        None,
        enforce,
        Duration::from_secs(3600),
        table,
        priority_enable,
        priority_ttl,
    )
}

fn prio_ctrl() -> AdmissionController {
    ranked_ctrl(true, ranks(&[(AA, 0), (BB, 1)]), true, Duration::from_secs(90))
}

fn rendered(c: &AdmissionController) -> String {
    c.metrics().unwrap().render()
}

#[test]
fn classify_vk_primary_then_mode() {
    let c = classifier();
    assert_eq!(c.classify(3, RANGE_VK), Some(PoolId::Range)); // vk wins over mode
    assert_eq!(c.classify(2, AGG_VK), Some(PoolId::Agg));
    assert_eq!(c.classify(2, &[0x99; 4]), Some(PoolId::Range)); // Compressed
    assert_eq!(c.classify(3, &[0x99; 4]), Some(PoolId::Agg)); // Plonk
    assert_eq!(c.classify(4, &[0x99; 4]), Some(PoolId::Agg)); // Groth16
    assert_eq!(c.classify(1, &[0x99; 4]), None); // Core is ungated
}

#[test]
fn classify_ignores_unknown_modes() {
    let c = classifier();
    for mode in [i32::MIN, -1, 0, 1, 5, i32::MAX] {
        assert_eq!(c.classify(mode, &[]), None);
    }
    assert_eq!(PoolId::Range.label(), "range");
    assert_eq!(PoolId::Agg.label(), "agg");
}

#[test]
fn rank_of_uses_config_then_default() {
    let c = ranked_ctrl(true, ranks(&[(&[0xAA], 0)]), false, Duration::from_secs(90));
    assert_eq!(c.rank_of(&[0xAA]), 0);
    assert_eq!(c.rank_of(&[0xBB]), u32::MAX);
}

#[test]
fn acquire_up_to_cap_then_reject() {
    let mut c = enforce_ctrl();
    assert!(c.try_acquire("p1", 2, RANGE_VK, &[0x01]).is_ok()); // Range cap 1
    assert_eq!(c.in_flight(PoolId::Range), 1);
    assert_eq!(
        c.try_acquire("p2", 2, RANGE_VK, &[0x01]).unwrap_err(),
        Rejection { pool: PoolId::Range, reason: RejectReason::PoolCap }
    );
}

#[test]
fn release_frees_slot_idempotently() {
    let mut c = enforce_ctrl();
    c.try_acquire("p1", 2, RANGE_VK, &[0x01]).unwrap();
    c.release("p1");
    c.release("p1"); // idempotent
    assert_eq!(c.in_flight(PoolId::Range), 0);
    assert!(c.try_acquire("p3", 2, RANGE_VK, &[0x01]).is_ok());
}

#[test]
fn dry_run_admits_over_cap() {
    let mut c = ranked_ctrl(false, RankTable::new(), false, Duration::from_secs(90));
    c.try_acquire("p1", 2, RANGE_VK, &[0x01]).unwrap();
    assert!(c.try_acquire("p2", 2, RANGE_VK, &[0x01]).is_ok()); // over cap, dry-run admits
    assert_eq!(c.in_flight(PoolId::Range), 2);
}

#[test]
fn ungated_takes_no_slot() {
    let mut c = enforce_ctrl();
    c.try_acquire("p1", 1, &[0x99; 4], &[0x01]).unwrap(); // Core is ungated
    assert_eq!(c.in_flight(PoolId::Range), 0);
    c.release("p1"); // no-op, no panic
}

#[test]
fn global_cap_serialises_pools() {
    let mut c = AdmissionController::new(
        classifier(),
        2,
        2,
        Some(1),
        true,
        Duration::from_secs(3600),
        RankTable::new(),
        false,
        Duration::from_secs(90),
    );
    c.try_acquire("p1", 2, RANGE_VK, &[0x01]).unwrap(); // takes the 1 global slot
    assert_eq!(
        c.try_acquire("p2", 3, AGG_VK, &[0x01]).unwrap_err(),
        Rejection { pool: PoolId::Agg, reason: RejectReason::GlobalCap } // agg had room
    );
}

#[test]
fn pool_cap_is_named_when_both_caps_are_reached() {
    let mut c = AdmissionController::new(
        classifier(),
        1,
        2,
        Some(1),
        true,
        Duration::from_secs(3600),
        RankTable::new(),
        false,
        Duration::from_secs(90),
    );
    c.try_acquire("p1", 2, RANGE_VK, &[0x01]).unwrap();
    let e = c.try_acquire("p2", 2, RANGE_VK, &[0x01]).unwrap_err();
    assert_eq!(e.reason, RejectReason::PoolCap);
}

#[test]
fn reaper_reclaims_expired() {
    let mut c = ctrl(1, ms(150));
    c.try_acquire_at("p1", 2, RANGE_VK, &[0x01], ms(0)).unwrap();
    c.mark_committed_at("p1", ms(0)); // only committed slots are reaped
    assert_eq!(c.reap_at(ms(1)), 0);
    assert_eq!(c.in_flight(PoolId::Range), 1); // not yet expired
    assert_eq!(c.reap_at(ms(220)), 1);
    assert_eq!(c.in_flight(PoolId::Range), 0);
}

#[test]
fn reaper_reclaims_at_the_deadline_exactly() {
    let mut c = ctrl(1, ms(150));
    c.try_acquire_at("p1", 2, RANGE_VK, &[0x01], ms(0)).unwrap();
    c.mark_committed_at("p1", ms(10));
    c.reap_at(ms(159));
    assert_eq!(c.in_flight(PoolId::Range), 1);
    c.reap_at(ms(160));
    assert_eq!(c.in_flight(PoolId::Range), 0);
}

#[test]
fn touch_prevents_reap_of_polled_slot() {
    let mut c = ctrl(1, ms(150));
    c.try_acquire_at("p1", 2, RANGE_VK, &[0x01], ms(0)).unwrap();
    c.mark_committed_at("p1", ms(0));
    c.touch_at("p1", ms(60)); // still being polled: deadline 210ms
    c.reap_at(ms(120));
    assert_eq!(c.in_flight(PoolId::Range), 1, "recently-touched slot must not be reaped");
    c.reap_at(ms(340)); // well past the last touch
    assert_eq!(c.in_flight(PoolId::Range), 0, "unpolled slot ages out and is reaped");
}

#[test]
fn touch_absent_slot_is_noop() {
    let mut c = enforce_ctrl();
    c.touch("nope"); // no panic, no effect
    assert_eq!(c.in_flight(PoolId::Range), 0);
}

#[test]
fn seed_bypasses_cap_and_is_idempotent() {
    let mut c = enforce_ctrl(); // Range cap = 1
    c.seed("restart-1", PoolId::Range, None, None);
    c.seed("restart-2", PoolId::Range, None, None); // over cap, but seed doesn't check it
    assert_eq!(c.in_flight(PoolId::Range), 2);
    c.seed("restart-1", PoolId::Range, None, None); // already tracked, no double count
    assert_eq!(c.in_flight(PoolId::Range), 2);
    // A normal acquire still enforces the cap against the seeded count.
    assert!(c.try_acquire("p1", 2, RANGE_VK, &[0x01]).is_err());
    // Releasing a seeded slot behaves like any other slot.
    c.release("restart-1");
    assert_eq!(c.in_flight(PoolId::Range), 1);
}

#[test]
fn seeded_slot_is_committed_and_reconciled_by_cluster_truth() {
    let mut c = enforce_ctrl();
    c.seed("seeded-proof", PoolId::Range, None, None);
    assert_eq!(c.in_flight(PoolId::Range), 1);
    // The cluster still reports it: kept.
    c.reconcile(complete(&["seeded-proof"]), 1);
    assert_eq!(c.in_flight(PoolId::Range), 1);
    // The cluster no longer reports it: released.
    c.reconcile(complete(&[]), 1);
    assert_eq!(c.in_flight(PoolId::Range), 0);
}

#[test]
fn seeded_slot_reaped_by_backstop_ttl_when_reconcile_unavailable() {
    let mut c = ctrl(1, ms(150));
    c.seed_at("seeded-proof", PoolId::Range, None, None, ms(0));
    c.reap_at(ms(1));
    assert_eq!(c.in_flight(PoolId::Range), 1, "within ttl, kept");
    c.reap_at(ms(220));
    assert_eq!(c.in_flight(PoolId::Range), 0);
}

#[test]
fn reap_never_reclaims_a_reserved_slot() {
    let mut c = ctrl(1, ms(30));
    c.try_acquire_at("reserved", 2, RANGE_VK, &[0x01], ms(0)).unwrap();
    c.reap_at(ms(45)); // well past ttl
    assert_eq!(c.in_flight(PoolId::Range), 1);
    assert!(c.has_slot("reserved"));
}

#[test]
fn reconcile_releases_absent_proof_but_keeps_pending() {
    let mut c = ctrl(2, Duration::from_secs(3600));
    c.try_acquire("p_live", 2, RANGE_VK, &[0x01]).unwrap();
    c.try_acquire("p_gone", 2, RANGE_VK, &[0x01]).unwrap();
    c.guard("p_live").commit();
    c.guard("p_gone").commit();
    assert_eq!(c.in_flight(PoolId::Range), 2);
    c.reconcile(complete(&["p_live"]), 1);
    assert_eq!(c.in_flight(PoolId::Range), 1);
    assert!(c.has_slot("p_live"));
    assert!(!c.has_slot("p_gone"));
}

#[test]
fn reconcile_reports_what_it_saw() {
    let mut c = ctrl(3, Duration::from_secs(3600));
    for id in ["a", "b", "c"] {
        c.try_acquire(id, 2, RANGE_VK, &[0x01]).unwrap();
    }
    c.guard("a").commit();
    c.guard("b").commit();
    let r = c.reconcile(complete(&["a", "x", "y"]), 1);
    assert_eq!(r.kind, "complete");
    assert_eq!((r.live, r.committed_tracked), (3, 2));
    assert_eq!((r.present, r.absent, r.released), (1, 1, 1));
    assert_eq!(r.present_ids, vec!["a".to_string()]);
    assert_eq!(r.absent_ids, vec!["b".to_string()]);
    let r = c.reconcile(PendingObservation::Partial(ids(&["a"])), 1);
    assert_eq!((r.kind, r.present, r.absent, r.released), ("partial", 1, 0, 0));
    let r = c.reconcile(PendingObservation::Gap, 1);
    assert_eq!((r.kind, r.live, r.committed_tracked), ("skip", 0, 0));
}

#[test]
fn reconcile_report_lists_a_bounded_sample() {
    let mut c = ctrl(1, Duration::from_secs(3600));
    for i in 0..70 {
        c.seed(&format!("s{i}"), PoolId::Agg, None, None);
    }
    let r = c.reconcile(complete(&[]), 3);
    assert_eq!(r.absent, 70);
    assert_eq!(r.absent_ids.len(), 64);
    assert_eq!(r.present_ids.len(), 0);
    assert_eq!(c.in_flight(PoolId::Agg), 70);
}

#[test]
fn reconcile_never_touches_a_reserved_uncommitted_slot() {
    let mut c = ctrl(2, Duration::from_secs(3600));
    c.try_acquire("reserved", 2, RANGE_VK, &[0x01]).unwrap();
    c.reconcile(complete(&[]), 1); // absent everywhere
    assert_eq!(c.in_flight(PoolId::Range), 1);
    assert!(c.has_slot("reserved"));
}

#[test]
fn reconcile_spares_recently_committed_slot_even_if_absent() {
    let mut c = ctrl(2, Duration::from_secs(3600));
    c.try_acquire("just_committed", 2, RANGE_VK, &[0x01]).unwrap();
    c.guard("just_committed").commit();
    c.reconcile(complete(&[]), 2); // 1 absent < threshold 2
    assert_eq!(c.in_flight(PoolId::Range), 1);
}

#[test]
fn reconcile_requires_sustained_absence() {
    let mut c = ctrl(2, Duration::from_secs(3600));
    c.try_acquire("p", 2, RANGE_VK, &[0x01]).unwrap();
    c.guard("p").commit();
    let n = 2;
    c.reconcile(complete(&[]), n);
    assert_eq!(c.in_flight(PoolId::Range), 1, "one absent observation must not release");
    // Reappears: the streak resets.
    c.reconcile(complete(&["p"]), n);
    c.reconcile(complete(&[]), n);
    assert_eq!(c.in_flight(PoolId::Range), 1, "a reappearance resets the streak");
    c.reconcile(complete(&[]), n);
    assert_eq!(c.in_flight(PoolId::Range), 0, "sustained absence releases");
}

#[test]
fn skip_neither_resets_nor_advances_absent_streak() {
    let mut c = ctrl(2, Duration::from_secs(3600));
    c.try_acquire("p", 2, RANGE_VK, &[0x01]).unwrap();
    c.guard("p").commit();
    let n = 3;
    c.reconcile(complete(&[]), n);
    assert_eq!(c.in_flight(PoolId::Range), 1);
    c.reconcile(PendingObservation::Gap, n);
    assert_eq!(c.in_flight(PoolId::Range), 1, "a skip must not release");
    c.reconcile(complete(&[]), n);
    assert_eq!(c.in_flight(PoolId::Range), 1, "a skip must not advance the streak");
    c.reconcile(complete(&[]), n);
    assert_eq!(c.in_flight(PoolId::Range), 0, "absence accrues across the skip");
}

#[test]
fn reconcile_present_refreshes_reap_deadline() {
    let mut c = ctrl(2, ms(80));
    c.try_acquire_at("p", 2, RANGE_VK, &[0x01], ms(0)).unwrap();
    c.mark_committed_at("p", ms(0));
    // The original deadline has passed, but the cluster shows the proof.
    c.reconcile_at(complete(&["p"]), 2, ms(120));
    c.reap_at(ms(121));
    assert_eq!(c.in_flight(PoolId::Range), 1);
}

#[test]
fn seed_ghost_slot_released_by_reconcile_absence_not_ttl() {
    let mut c = enforce_ctrl();
    c.seed("ghost", PoolId::Range, None, None);
    assert_eq!(c.in_flight(PoolId::Range), 1);
    c.reconcile(complete(&[]), 2);
    assert_eq!(c.in_flight(PoolId::Range), 1);
    c.reconcile(complete(&[]), 2);
    assert_eq!(c.in_flight(PoolId::Range), 0);
}

#[test]
fn seed_over_cap_converges_via_reconcile() {
    let mut c = enforce_ctrl(); // Range cap 1
    c.seed("s1", PoolId::Range, None, None);
    c.seed("s2", PoolId::Range, None, None);
    c.seed("s3", PoolId::Range, None, None);
    assert_eq!(c.in_flight(PoolId::Range), 3, "seed bypasses the cap");
    c.reconcile(complete(&["s2"]), 1);
    assert_eq!(c.in_flight(PoolId::Range), 1);
    assert!(c.has_slot("s2"));
}

#[test]
fn partial_view_refreshes_present_but_never_releases_absent() {
    let mut c = ctrl(2, Duration::from_secs(3600));
    c.try_acquire("p_seen", 2, RANGE_VK, &[0x01]).unwrap();
    c.try_acquire("p_unseen", 2, RANGE_VK, &[0x01]).unwrap();
    c.guard("p_seen").commit();
    c.guard("p_unseen").commit();
    c.reconcile(PendingObservation::Partial(ids(&["p_seen"])), 1);
    c.reconcile(PendingObservation::Partial(ids(&["p_seen"])), 1);
    assert_eq!(c.in_flight(PoolId::Range), 2);
}

#[test]
fn partial_view_refreshes_present_slot_deadline() {
    let mut c = ctrl(2, ms(80));
    c.try_acquire_at("p", 2, RANGE_VK, &[0x01], ms(0)).unwrap();
    c.mark_committed_at("p", ms(0));
    c.reconcile_at(PendingObservation::Partial(ids(&["p"])), 2, ms(120));
    c.reap_at(ms(121));
    assert_eq!(c.in_flight(PoolId::Range), 1);
}

#[test]
fn reconcile_within_commit_grace_spares_absent_committed_slot() {
    let mut c = enforce_ctrl().with_commit_grace(ms(120));
    c.try_acquire_at("p", 2, RANGE_VK, &[0x01], ms(0)).unwrap();
    c.mark_committed_at("p", ms(0));
    c.reconcile_at(complete(&[]), 1, ms(1));
    c.reconcile_at(complete(&[]), 1, ms(2));
    assert_eq!(c.in_flight(PoolId::Range), 1, "spared by the grace");
    c.reconcile_at(complete(&[]), 1, ms(142));
    assert_eq!(c.in_flight(PoolId::Range), 0, "absence counts after the grace");
}

#[test]
fn commit_grace_ends_at_its_last_instant() {
    let mut c = enforce_ctrl().with_commit_grace(ms(120));
    c.try_acquire_at("p", 2, RANGE_VK, &[0x01], ms(0)).unwrap();
    c.mark_committed_at("p", ms(10));
    c.reconcile_at(complete(&[]), 1, ms(129));
    assert_eq!(c.in_flight(PoolId::Range), 1);
    c.reconcile_at(complete(&[]), 1, ms(130));
    assert_eq!(c.in_flight(PoolId::Range), 0);
}

#[test]
fn commit_grace_defaults_off_so_new_controllers_count_absence_immediately() {
    let mut c = enforce_ctrl();
    c.try_acquire("p", 2, RANGE_VK, &[0x01]).unwrap();
    c.guard("p").commit();
    c.reconcile(complete(&[]), 1);
    assert_eq!(c.in_flight(PoolId::Range), 0);
}

#[test]
fn guard_drop_without_commit_releases_the_slot() {
    let mut c = enforce_ctrl();
    c.try_acquire("x", 2, RANGE_VK, &[0x01]).unwrap();
    assert_eq!(c.in_flight(PoolId::Range), 1);
    c.guard("x").abandon();
    assert_eq!(c.in_flight(PoolId::Range), 0);
    assert!(!c.has_slot("x"));
}

#[test]
fn slot_ages_are_reported_per_requester_and_cleared_on_release() {
    let mut c = ctrl(2, Duration::from_secs(3600)).with_metrics(AdmissionMetrics::new());
    c.try_acquire("p1", 2, RANGE_VK, &[0xaa]).unwrap(); // range, requester aa
    c.try_acquire("p2", 3, AGG_VK, &[0xbb]).unwrap(); // agg, requester bb
    c.report_slot_ages();
    let out = rendered(&c);
    assert!(
        out.contains("gateway_admission_slot_held_seconds{pool=\"range\",requester=\"0xaa\"}"),
        "range slot must be attributed to its holder:\n{out}"
    );
    assert!(
        out.contains("gateway_admission_slot_held_seconds{pool=\"agg\",requester=\"0xbb\"}"),
        "agg slot must be attributed to its holder:\n{out}"
    );
    c.release("p1");
    c.report_slot_ages();
    let out = rendered(&c);
    assert!(
        !out.contains("requester=\"0xaa\""),
        "a released slot must stop exporting a series, not freeze:\n{out}"
    );
    assert!(
        out.contains("gateway_admission_slot_held_seconds{pool=\"agg\",requester=\"0xbb\"}"),
        "the still-held slot must remain:\n{out}"
    );
}

#[test]
fn seeded_slots_report_as_unknown_requester() {
    let mut c = ctrl(2, Duration::from_secs(3600)).with_metrics(AdmissionMetrics::new());
    c.seed("recovered", PoolId::Range, None, None);
    c.report_slot_ages();
    let out = rendered(&c);
    assert!(
        out.contains("gateway_admission_slot_held_seconds{pool=\"range\",requester=\"unknown\"}"),
        "a seeded slot must be visible as unknown-requester occupancy:\n{out}"
    );
}

#[test]
fn seeded_slots_keep_their_requester_and_backdated_age() {
    let mut c = ctrl(2, Duration::from_secs(3600)).with_metrics(AdmissionMetrics::new());
    c.seed(
        "recovered",
        PoolId::Range,
        Some(vec![0xaa]),
        Some(Duration::from_secs(1200)),
    );
    c.report_slot_ages();
    let out = rendered(&c);
    assert!(
        out.contains(
            "gateway_admission_slot_held_seconds{pool=\"range\",requester=\"0xaa\"} 1200\n"
        ),
        "a seeded slot must keep its owner and report its pre-restart age:\n{out}"
    );
}

#[test]
fn zero_address_is_labelled_unauthenticated() {
    assert_eq!(requester_label(Some(&[0u8; 20])), "unauthenticated");
    assert_eq!(requester_label(None), "unknown");
    assert_eq!(requester_label(Some(&[])), "unknown");
    // Real addresses keep the 0x prefix that an exact-match search expects.
    assert_eq!(requester_label(Some(&[0xab, 0xcd])), "0xabcd");
}

#[test]
fn slot_age_reports_the_oldest_of_a_requesters_slots() {
    let mut c = ctrl(4, Duration::from_secs(3600)).with_metrics(AdmissionMetrics::new());
    let who = Some(vec![0xaa]);
    c.seed("old", PoolId::Range, who.clone(), Some(Duration::from_secs(100)));
    c.seed("new", PoolId::Range, who, Some(Duration::from_secs(10)));
    c.report_slot_ages();
    let out = rendered(&c);
    assert!(
        out.contains("gateway_admission_slot_held_seconds{pool=\"range\",requester=\"0xaa\"} 100\n"),
        "must report the oldest slot's age (100), not the newest (10) or the sum (110):\n{out}"
    );
}

#[test]
fn metrics_render_reflects_state() {
    let mut c = enforce_ctrl().with_metrics(AdmissionMetrics::new());
    c.try_acquire("p1", 2, RANGE_VK, &[0x01]).unwrap();
    let _ = c.try_acquire("p2", 2, RANGE_VK, &[0x01]); // rejected
    let out = rendered(&c);
    assert!(
        out.contains("gateway_admission_admitted_total{pool=\"range\"} 1"),
        "admit must increment admitted_total for range:\n{out}"
    );
    assert!(
        out.contains("gateway_admission_rejected_total{pool=\"range\"} 1"),
        "over-cap shed must increment rejected_total for range:\n{out}"
    );
}

#[test]
fn a_fresh_exposition_is_exact() {
    let out = AdmissionMetrics::new().render();
    let want = "# HELP gateway_admission_inflight In-flight per pool.\n\
        # TYPE gateway_admission_inflight gauge\n\
        # HELP gateway_admission_global_inflight In-flight across all pools.\n\
        # TYPE gateway_admission_global_inflight gauge\n\
        gateway_admission_global_inflight 0\n\
        # HELP gateway_admission_admitted Admitted, per pool.\n\
        # TYPE gateway_admission_admitted counter\n\
        # HELP gateway_admission_rejected Rejected (pool cap), per pool.\n\
        # TYPE gateway_admission_rejected counter\n\
        # HELP gateway_admission_rejected_global Rejected (global cap).\n\
        # TYPE gateway_admission_rejected_global counter\n\
        gateway_admission_rejected_global_total 0\n";
    assert!(out.starts_with(want), "{out}");
    assert!(out.ends_with("# EOF\n"));
    assert_eq!(out.matches("# TYPE ").count(), 15);
}

#[test]
fn gauges_and_counters_show_every_transition() {
    let mut c = AdmissionController::new(
        classifier(),
        2,
        2,
        Some(2),
        true,
        ms(100),
        RankTable::new(),
        false,
        Duration::from_secs(90),
    )
    .with_metrics(AdmissionMetrics::new());
    c.try_acquire_at("u", 1, &[], &[1], ms(0)).unwrap(); // ungated
    c.try_acquire_at("r", 2, &[], &[1], ms(0)).unwrap();
    c.seed_at("a", PoolId::Agg, None, None, ms(0));
    c.try_acquire_at("x", 3, &[], &[1], ms(0)).unwrap_err(); // global cap
    let out = rendered(&c);
    for line in [
        "gateway_admission_inflight{pool=\"range\"} 1\n",
        "gateway_admission_inflight{pool=\"agg\"} 1\n",
        "gateway_admission_global_inflight 2\n",
        "gateway_admission_rejected_global_total 1\n",
        "gateway_admission_seeded_total{pool=\"agg\"} 1\n",
        "gateway_admission_unclassified_total 1\n",
    ] {
        assert!(out.contains(line), "{line} in\n{out}");
    }
    c.reap_at(ms(100)); // the seeded slot is committed and expired
    let out = rendered(&c);
    assert!(out.contains("gateway_admission_reaped_total{pool=\"agg\"} 1\n"), "{out}");
    assert!(out.contains("gateway_admission_inflight{pool=\"agg\"} 0\n"), "{out}");
    c.mark_committed_at("r", ms(100));
    c.reconcile_at(complete(&[]), 1, ms(101));
    let out = rendered(&c);
    assert!(out.contains("gateway_admission_reconciled_total{pool=\"range\"} 1\n"), "{out}");
    assert!(out.contains("gateway_admission_global_inflight 0\n"), "{out}");
}

#[test]
fn higher_rank_fresh_demand_makes_lower_yield_even_with_free_slot() {
    let mut c = prio_ctrl();
    c.try_acquire("occupier", 2, RANGE_VK, &[0x01]).unwrap(); // fills Range cap=1
    let e = c.try_acquire("a1", 2, RANGE_VK, AA).unwrap_err();
    assert_eq!(e.reason, RejectReason::PoolCap); // A shed on cap and waits
    c.release("occupier");
    let e2 = c.try_acquire("b1", 2, RANGE_VK, BB).unwrap_err();
    assert_eq!(e2.reason, RejectReason::PriorityYield); // slot free but A out-ranks B
    assert!(c.try_acquire("a2", 2, RANGE_VK, AA).is_ok()); // A wins
    assert_eq!(c.in_flight(PoolId::Range), 1);
}

#[test]
fn stale_higher_demand_does_not_block_lower() {
    let mut c = ranked_ctrl(true, ranks(&[(AA, 0), (BB, 1)]), true, ms(20));
    c.try_acquire_at("occ", 2, RANGE_VK, &[0x01], ms(0)).unwrap();
    c.try_acquire_at("a1", 2, RANGE_VK, AA, ms(0)).unwrap_err();
    c.release("occ");
    assert!(c.try_acquire_at("b1", 2, RANGE_VK, BB, ms(35)).is_ok());
}

#[test]
fn demand_is_fresh_up_to_its_ttl() {
    let mut c = ranked_ctrl(true, ranks(&[(AA, 0), (BB, 1)]), true, ms(20));
    c.try_acquire_at("occ", 2, RANGE_VK, &[0x01], ms(0)).unwrap();
    c.try_acquire_at("a1", 2, RANGE_VK, AA, ms(0)).unwrap_err();
    c.release("occ");
    let e = c.try_acquire_at("b1", 2, RANGE_VK, BB, ms(20)).unwrap_err();
    assert_eq!(e.reason, RejectReason::PriorityYield);
    assert!(c.try_acquire_at("b2", 2, RANGE_VK, BB, ms(21)).is_ok());
}

#[test]
fn equal_rank_first_seen_wins() {
    let mut c = ranked_ctrl(true, ranks(&[(AA, 5), (BB, 5)]), true, Duration::from_secs(90));
    c.try_acquire_at("occ", 2, RANGE_VK, &[0x01], ms(0)).unwrap();
    c.try_acquire_at("a1", 2, RANGE_VK, AA, ms(1)).unwrap_err(); // A waits first
    c.try_acquire_at("b1", 2, RANGE_VK, BB, ms(6)).unwrap_err(); // B waits second
    c.release("occ");
    let eb = c.try_acquire_at("b2", 2, RANGE_VK, BB, ms(7)).unwrap_err();
    assert_eq!(eb.reason, RejectReason::PriorityYield); // B yields to earlier A
    assert!(c.try_acquire_at("a2", 2, RANGE_VK, AA, ms(8)).is_ok());
}

#[test]
fn returning_after_stale_demand_loses_seniority() {
    let mut c = ranked_ctrl(true, ranks(&[(AA, 5), (BB, 5)]), true, ms(50));
    c.try_acquire_at("occ", 2, RANGE_VK, &[0x01], ms(0)).unwrap();
    c.try_acquire_at("a1", 2, RANGE_VK, AA, ms(1)).unwrap_err();
    c.try_acquire_at("b1", 2, RANGE_VK, BB, ms(60)).unwrap_err();
    c.try_acquire_at("a2", 2, RANGE_VK, AA, ms(70)).unwrap_err(); // A's wait starts anew
    c.release("occ");
    let e = c.try_acquire_at("a3", 2, RANGE_VK, AA, ms(71)).unwrap_err();
    assert_eq!(e.reason, RejectReason::PriorityYield);
    assert!(c.try_acquire_at("b2", 2, RANGE_VK, BB, ms(72)).is_ok());
}

#[test]
fn priority_disabled_behaves_as_today() {
    let mut c = ranked_ctrl(true, ranks(&[(AA, 0), (BB, 1)]), false, Duration::from_secs(90));
    c.try_acquire("occ", 2, RANGE_VK, &[0x01]).unwrap();
    c.try_acquire("a1", 2, RANGE_VK, AA).unwrap_err();
    c.release("occ");
    assert!(c.try_acquire("b1", 2, RANGE_VK, BB).is_ok()); // no priority: first wins
}

#[test]
fn priority_disabled_records_no_demand() {
    let mut c = ranked_ctrl(true, ranks(&[(AA, 0), (BB, 1)]), false, Duration::from_secs(90));
    c.try_acquire("occ", 2, RANGE_VK, &[0x01]).unwrap();
    c.try_acquire("a1", 2, RANGE_VK, AA).unwrap_err(); // cap shed
    assert!(c.demand_is_empty(), "priority-off must not record demand");
}

#[test]
fn unconfigured_equal_default_ranks_do_not_yield() {
    let mut c = ranked_ctrl(true, RankTable::new(), true, Duration::from_secs(90));
    let x: &[u8] = &[0x01];
    let y: &[u8] = &[0x02];
    c.try_acquire("occ", 2, RANGE_VK, x).unwrap(); // fills cap
    c.try_acquire("x1", 2, RANGE_VK, x).unwrap_err(); // x shed and waits
    c.release("occ");
    assert!(c.try_acquire("y1", 2, RANGE_VK, y).is_ok());
}

#[test]
fn priority_metrics_render() {
    let mut c = prio_ctrl().with_metrics(AdmissionMetrics::new());
    c.try_acquire("occ", 2, RANGE_VK, &[0x01]).unwrap();
    c.try_acquire("a1", 2, RANGE_VK, AA).unwrap_err(); // A shed (cap) and waits
    c.release("occ");
    c.try_acquire("b1", 2, RANGE_VK, BB).unwrap_err(); // yield
    let out = rendered(&c);
    assert!(
        out.contains("gateway_admission_priority_yielded_total{pool=\"range\"} 1"),
        "yield must have incremented priority_yielded for range:\n{out}"
    );
    assert!(
        out.contains("gateway_admission_priority_hold_open_total{pool=\"range\"}"),
        "yield must have incremented priority_hold_open for range:\n{out}"
    );
    assert!(
        out.contains("gateway_admission_priority_demand{pool=\"range\"} 2"),
        "demand gauge must reflect the two fresh Range demanders:\n{out}"
    );
}

#[test]
fn dry_run_emits_would_yield_not_yielded() {
    let mut c = ranked_ctrl(false, ranks(&[(AA, 0), (BB, 1)]), true, Duration::from_secs(90))
        .with_metrics(AdmissionMetrics::new());
    c.try_acquire("occ", 2, RANGE_VK, &[0x01]).unwrap(); // count 1 (cap 1)
    c.try_acquire("a1", 2, RANGE_VK, AA).unwrap(); // over cap: admitted, but A waits
    c.release("occ");
    c.release("a1"); // the pool is free again, and A still waits
    c.try_acquire("b1", 2, RANGE_VK, BB).unwrap(); // free slot, A out-ranks B
    let out = rendered(&c);
    assert!(
        out.contains("gateway_admission_priority_would_yield_total{pool=\"range\"} 1"),
        "dry-run yield must increment priority_would_yield for range:\n{out}"
    );
    assert!(
        !out.contains("gateway_admission_priority_yielded_total{pool=\"range\"}"),
        "dry-run must not shed: priority_yielded must have no range sample:\n{out}"
    );
    assert!(out.contains("gateway_admission_would_reject_total{pool=\"range\"} 1"), "{out}");
}

#[test]
fn reap_drops_stale_demand() {
    let mut c = ranked_ctrl(true, ranks(&[(AA, 0)]), true, ms(20));
    c.try_acquire_at("occ", 2, RANGE_VK, &[0x01], ms(0)).unwrap();
    c.try_acquire_at("a1", 2, RANGE_VK, AA, ms(0)).unwrap_err();
    assert!(!c.demand_is_empty());
    c.reap_at(ms(35));
    assert!(c.demand_is_empty(), "stale demand must be reaped");
}

#[test]
fn admit_clears_demand() {
    let mut c = prio_ctrl(); // Range cap = 1
    c.try_acquire("occ", 2, RANGE_VK, &[0x01]).unwrap();
    c.try_acquire("a1", 2, RANGE_VK, AA).unwrap_err();
    assert!(!c.demand_is_empty(), "shed must have recorded demand");
    c.release("occ");
    c.try_acquire("a2", 2, RANGE_VK, AA).unwrap();
    assert!(c.demand_is_empty(), "clean admit must clear the proposer's demand");
}

#[test]
fn tracked_slots_come_and_go() {
    let mut c = enforce_ctrl();
    assert!(!c.has_tracked_slots());
    c.try_acquire("p", 2, RANGE_VK, &[0x01]).unwrap();
    assert!(c.has_tracked_slots());
    c.release("p");
    assert!(!c.has_tracked_slots());
}

#[test]
fn the_clock_advances() {
    let mut c = ctrl(1, Duration::zero());
    let start = c.now();
    c.try_acquire("p", 2, RANGE_VK, &[0x01]).unwrap();
    c.guard("p").commit();
    while c.now() == start {}
    assert!(c.now() > start);
    assert_eq!(c.reap(), 1); // a TTL of zero has passed
}

#[test]
fn room_is_left_for_more() {
    let mut c = ctrl(3, Duration::from_secs(3600));
    assert!(c.has_room_for(usize::MAX));
    c.seed("s", PoolId::Agg, None, None);
    assert!(!c.has_room_for(usize::MAX));
    assert!(c.has_room_for(usize::MAX - 1));
}

#[test]
fn a_tracked_id_is_counted_again_by_a_second_request() {
    let mut c = ctrl(3, Duration::from_secs(3600));
    c.try_acquire("p", 2, RANGE_VK, &[0x01]).unwrap();
    c.try_acquire("p", 2, RANGE_VK, &[0x01]).unwrap();
    assert_eq!(c.in_flight(PoolId::Range), 2);
    c.release("p");
    assert_eq!(c.in_flight(PoolId::Range), 1);
    c.release("p");
    assert_eq!(c.in_flight(PoolId::Range), 1);
}

#[test]
fn a_mixed_run_stays_within_caps_and_counts_its_slots() {
    let mut c = ctrl(1, ms(500)); // Range cap 1, Agg cap 2
    let held = |c: &AdmissionController, list: &[&str]| {
        list.iter().filter(|id| c.has_slot(id)).count()
    };
    let range = ["r1", "r2", "r3"];
    let agg = ["a1", "a2", "a3"];
    c.try_acquire_at("r1", 2, RANGE_VK, &[0x01], ms(0)).unwrap();
    assert!(c.try_acquire_at("r2", 2, RANGE_VK, &[0x01], ms(1)).is_err());
    c.try_acquire_at("a1", 2, AGG_VK, &[0x01], ms(2)).unwrap();
    c.try_acquire_at("a2", 2, AGG_VK, &[0x01], ms(3)).unwrap();
    assert!(c.try_acquire_at("a3", 2, AGG_VK, &[0x01], ms(4)).is_err());
    assert_eq!((c.in_flight(PoolId::Range), held(&c, &range)), (1, 1));
    assert_eq!((c.in_flight(PoolId::Agg), held(&c, &agg)), (2, 2));
    c.mark_committed_at("r1", ms(5));
    c.mark_committed_at("a1", ms(5));
    c.touch_at("a1", ms(400));
    c.reap_at(ms(600)); // r1 has expired, a1 was polled, a2 is only reserved
    assert_eq!((c.in_flight(PoolId::Range), held(&c, &range)), (0, 0));
    assert_eq!((c.in_flight(PoolId::Agg), held(&c, &agg)), (2, 2));
    c.try_acquire_at("r3", 2, RANGE_VK, &[0x01], ms(601)).unwrap();
    c.release("a2");
    c.release("a2");
    c.try_acquire_at("a3", 2, AGG_VK, &[0x01], ms(602)).unwrap();
    assert_eq!((c.in_flight(PoolId::Range), held(&c, &range)), (1, 1));
    assert_eq!((c.in_flight(PoolId::Agg), held(&c, &agg)), (2, 2));
}

#[test]
fn counts_outlive_a_scrape() {
    let mut c = ctrl(5, Duration::from_secs(3600)).with_metrics(AdmissionMetrics::new());
    for id in ["p1", "p2"] {
        c.try_acquire(id, 2, RANGE_VK, &[0x01]).unwrap();
        c.try_acquire(id, 99, &[0x99], &[0x01]).unwrap(); // ungated
        assert_eq!(rendered(&c), rendered(&c));
    }
    let out = rendered(&c);
    assert!(out.contains("gateway_admission_admitted_total{pool=\"range\"} 2\n"), "{out}");
    assert!(out.contains("gateway_admission_unclassified_total 2\n"), "{out}");
    assert!(out.contains("gateway_admission_inflight{pool=\"range\"} 2\n"), "{out}");
    assert!(out.contains("gateway_admission_global_inflight 2\n"), "{out}");
    assert!(!out.contains("pool=\"agg\""), "a pool that was never counted has no series: {out}");
}

#[test]
fn the_clock_never_runs_back() {
    let mut c = enforce_ctrl();
    let mut last = c.now();
    for _ in 0..1000 {
        c.touch("nobody");
        let now = c.now();
        assert!(now >= last);
        last = now;
    }
}

#[test]
fn removal_takes_one_slot_and_one_count() {
    let mut c = ctrl(5, Duration::from_secs(3600));
    c.try_acquire("p", 2, RANGE_VK, &[0x01]).unwrap();
    c.try_acquire("q", 2, RANGE_VK, &[0x01]).unwrap();
    assert_eq!(c.remove_and_dec("nobody", |_| true), None);
    assert_eq!(c.remove_and_dec("p", |s| s.is_committed()), None); // only reserved
    assert_eq!(c.in_flight(PoolId::Range), 2);
    c.guard("p").commit();
    assert_eq!(c.remove_and_dec("p", |s| s.is_committed()), Some(PoolId::Range));
    assert_eq!(c.remove_and_dec("p", |_| true), None);
    assert_eq!(c.in_flight(PoolId::Range), 1);
    assert!(!c.has_slot("p") && c.has_slot("q"));
}
