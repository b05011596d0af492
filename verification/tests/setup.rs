//! Settings, and what is built from them.
use network_gateway::config::{AuthMode, Config};
use network_gateway::pool::PoolId;
use network_gateway::setup::{
    balance_amount, build_admission, build_auth, build_program_store, log_admission_config,
    node_list, parse_priority_order, parse_vk_hashes, pool_size, AdmissionConfigError,
    AuthConfigError, OrderError, ProgramStoreChoice, ProgramStoreError,
};

fn base_cfg() -> Config {
    Config::with_cluster("http://localhost:50051".to_string())
}

#[test]
fn build_admission_accepts_defaults() {
    assert!(build_admission(&base_cfg()).is_ok());
}

#[test]
fn build_admission_rejects_zero_reap_period() {
    let mut cfg = base_cfg();
    cfg.admission_reap_period_secs = 0;
    assert!(matches!(build_admission(&cfg), Err(AdmissionConfigError::ReapPeriodZero)));
}

#[test]
fn build_admission_rejects_zero_ttl() {
    let mut cfg = base_cfg();
    cfg.admission_slot_ttl_secs = 0;
    assert!(matches!(build_admission(&cfg), Err(AdmissionConfigError::SlotTtlZero)));
}

#[test]
fn build_admission_rejects_absurd_ttl() {
    let mut cfg = base_cfg();
    cfg.admission_slot_ttl_secs = u64::MAX;
    assert!(matches!(build_admission(&cfg), Err(AdmissionConfigError::TtlTooLong)));
    cfg.admission_slot_ttl_secs = 86_401;
    assert!(matches!(build_admission(&cfg), Err(AdmissionConfigError::TtlTooLong)));
    cfg.admission_slot_ttl_secs = 86_400;
    assert!(build_admission(&cfg).is_ok());
}

#[test]
fn build_admission_rejects_absent_observations_below_two() {
    let mut one = base_cfg();
    one.admission_reconcile_absent_observations = 1;
    assert!(matches!(
        build_admission(&one),
        Err(AdmissionConfigError::AbsentObservationsBelowTwo)
    ));
    let mut zero = base_cfg();
    zero.admission_reconcile_absent_observations = 0;
    assert!(build_admission(&zero).is_err());
}

#[test]
fn build_admission_rejects_debounce_window_reaching_ttl() {
    let mut cfg = base_cfg();
    cfg.admission_reap_period_secs = 60;
    cfg.admission_slot_ttl_secs = 120;
    cfg.admission_reconcile_absent_observations = 2; // 2 x 60 = 120 >= 120
    assert!(matches!(
        build_admission(&cfg),
        Err(AdmissionConfigError::AbsenceWindowReachesTtl)
    ));
    // A window comfortably inside the TTL passes.
    cfg.admission_slot_ttl_secs = 3600;
    assert!(build_admission(&cfg).is_ok());
}

#[test]
fn build_admission_rejects_commit_grace_reaching_ttl() {
    let mut cfg = base_cfg();
    cfg.admission_reap_period_secs = 10;
    cfg.admission_slot_ttl_secs = 100;
    cfg.admission_reconcile_commit_grace_secs = 100; // == ttl
    assert!(matches!(
        build_admission(&cfg),
        Err(AdmissionConfigError::CommitGraceReachesTtl)
    ));
    cfg.admission_reconcile_commit_grace_secs = 60; // < ttl
    assert!(build_admission(&cfg).is_ok());
    cfg.admission_reconcile_commit_grace_secs = 0; // disabled
    assert!(build_admission(&cfg).is_ok());
}

#[test]
fn build_admission_rejects_fetch_timeout_above_reap_period() {
    let mut cfg = base_cfg();
    cfg.admission_reap_period_secs = 5;
    cfg.admission_reconcile_fetch_timeout_secs = 10;
    assert!(matches!(
        build_admission(&cfg),
        Err(AdmissionConfigError::FetchTimeoutAboveReapPeriod)
    ));
}

#[test]
fn build_admission_rejects_zero_fetch_timeout() {
    let mut cfg = base_cfg();
    cfg.admission_reconcile_fetch_timeout_secs = 0;
    assert!(matches!(build_admission(&cfg), Err(AdmissionConfigError::FetchTimeoutZero)));
}

#[test]
fn build_admission_rejects_reap_period_not_below_ttl() {
    let mut cfg = base_cfg();
    cfg.admission_reap_period_secs = 3600;
    cfg.admission_slot_ttl_secs = 3600;
    assert!(matches!(
        build_admission(&cfg),
        Err(AdmissionConfigError::ReapPeriodNotBelowTtl)
    ));
}

#[test]
fn build_admission_rejects_zero_cap_under_enforce() {
    let mut range0 = base_cfg();
    range0.admission_enforce = true;
    range0.admission_range_max_inflight = 0;
    assert!(matches!(build_admission(&range0), Err(AdmissionConfigError::RangeCapZero)));

    let mut agg0 = base_cfg();
    agg0.admission_enforce = true;
    agg0.admission_agg_max_inflight = 0;
    assert!(matches!(build_admission(&agg0), Err(AdmissionConfigError::AggCapZero)));

    let mut global0 = base_cfg();
    global0.admission_enforce = true;
    global0.admission_global_max_inflight = Some(0);
    assert!(matches!(build_admission(&global0), Err(AdmissionConfigError::GlobalCapZero)));

    // Dry-run admits regardless of caps, so a zero cap is harmless there.
    let mut dry = base_cfg();
    dry.admission_enforce = false;
    dry.admission_range_max_inflight = 0;
    dry.admission_global_max_inflight = Some(0);
    assert!(build_admission(&dry).is_ok());
}

#[test]
fn build_admission_rejects_zero_priority_ttl_when_enabled() {
    let mut cfg = base_cfg();
    cfg.admission_priority_enable = true;
    cfg.admission_priority_ttl_secs = 0;
    assert!(matches!(build_admission(&cfg), Err(AdmissionConfigError::PriorityTtlZero)));
    // ...but a zero TTL is harmless (ignored) while priority is disabled.
    let mut cfg_off = base_cfg();
    cfg_off.admission_priority_enable = false;
    cfg_off.admission_priority_ttl_secs = 0;
    assert!(build_admission(&cfg_off).is_ok());
}

#[test]
fn build_admission_applies_hashes_and_ranks() {
    let mut cfg = base_cfg();
    cfg.admission_range_vk_hashes = Some(vec!["0xAB01".to_string()]);
    cfg.admission_agg_vk_hashes = Some(vec![" ".to_string(), "cd".to_string()]);
    cfg.admission_priority_order = Some(vec![format!("{}:7", "11".repeat(20))]);
    let g = build_admission(&cfg).unwrap();
    assert_eq!(g.classify(0, &[0xab, 0x01]), Some(PoolId::Range));
    assert_eq!(g.classify(0, &[0xcd]), Some(PoolId::Agg));
    assert_eq!(g.classify(0, &[0xab]), None);
    assert_eq!(g.rank_of(&[0x11; 20]), 7);
    assert_eq!(g.rank_of(&[0x22; 20]), u32::MAX);
}

#[test]
fn build_admission_names_faulty_entries() {
    let mut cfg = base_cfg();
    cfg.admission_range_vk_hashes = Some(vec!["0x1".to_string()]);
    match build_admission(&cfg) {
        Err(AdmissionConfigError::RangeVkHashes(s)) => assert_eq!(s, "0x1"),
        _ => panic!("an odd number of digits is no hash"),
    }
    let mut cfg = base_cfg();
    cfg.admission_agg_vk_hashes = Some(vec!["aa".to_string(), " zz ".to_string()]);
    match build_admission(&cfg) {
        Err(AdmissionConfigError::AggVkHashes(s)) => assert_eq!(s, "zz"),
        _ => panic!("zz is no hash"),
    }
    let mut cfg = base_cfg();
    cfg.admission_priority_order = Some(vec!["nope".to_string()]);
    assert!(matches!(
        build_admission(&cfg),
        Err(AdmissionConfigError::PriorityOrder(OrderError::MissingRank(_)))
    ));
}

#[test]
fn parse_priority_order_pairs_and_rejects_malformed() {
    let a = format!("0x{}", "11".repeat(20)); // 20-byte address, 0x-prefixed
    let b = "22".repeat(20); // 20-byte address, bare hex tolerated
    let ok = parse_priority_order(Some(&[format!("{a}:0"), format!("{b}:1")])).unwrap();
    assert_eq!(ok.get(&hex::decode("11".repeat(20)).unwrap()), Some(0));
    assert_eq!(ok.get(&hex::decode("22".repeat(20)).unwrap()), Some(1));

    assert!(parse_priority_order(Some(&["0xZZ:0".to_string()])).is_err()); // bad hex
    // wrong length: 20-byte addresses required, a short one is rejected
    assert!(parse_priority_order(Some(&["0x1111:0".to_string()])).is_err());
    assert!(parse_priority_order(Some(&[format!("{a}:notanum")])).is_err()); // bad rank
    assert!(parse_priority_order(Some(std::slice::from_ref(&a))).is_err()); // no rank
    assert!(parse_priority_order(Some(&[format!("{a}:0"), format!("{a}:1")])).is_err()); // duplicate
    assert!(parse_priority_order(None).unwrap().is_empty());
}

#[test]
fn priority_order_errors_name_their_cause() {
    let a = format!("0x{}", "1A".repeat(20));
    let err = |s: String| match parse_priority_order(Some(&[s])) {
        Err(e) => e,
        Ok(_) => panic!("must be refused"),
    };
    match err(" 0xZZ :0".to_string()) {
        OrderError::InvalidAddress(s) => assert_eq!(s, "0xZZ "),
        _ => panic!("not hex"),
    }
    match err(" 0x1111:0 ".to_string()) {
        OrderError::AddressLength(s) => assert_eq!(s, "0x1111:0"),
        _ => panic!("too short"),
    }
    assert!(matches!(err(format!("{a}:-1")), OrderError::InvalidRank(_)));
    assert!(matches!(err(format!("{a}:4294967296")), OrderError::InvalidRank(_)));
    match parse_priority_order(Some(&[format!("{a}:0"), String::new(), format!("0x{a}:1")])) {
        Err(OrderError::Duplicate(bytes)) => assert_eq!(bytes, vec![0x1a; 20]),
        _ => panic!("listed twice"),
    }
    let ok = parse_priority_order(Some(&[format!("\t{a} : +4294967295 ")])).unwrap();
    assert_eq!(ok.get(&[0x1a; 20]), Some(u32::MAX));
}

#[test]
fn vk_hashes_are_trimmed_and_decoded() {
    assert_eq!(parse_vk_hashes(None).unwrap(), Vec::<Vec<u8>>::new());
    let list = ["0x0102".to_string(), "  ".to_string(), "\u{a0}fFEE\n".to_string()];
    assert_eq!(parse_vk_hashes(Some(&list)).unwrap(), vec![vec![1, 2], vec![0xff, 0xee]]);
    assert_eq!(parse_vk_hashes(Some(&["é".to_string()])).unwrap_err(), "é");
    assert_eq!(parse_vk_hashes(Some(&["0x0x".to_string()])).unwrap(), vec![Vec::<u8>::new()]);
}

#[test]
fn program_store_is_chosen_by_name() {
    let mut cfg = base_cfg();
    assert!(matches!(build_program_store(&cfg), Ok(ProgramStoreChoice::Memory)));
    cfg.program_store = "fs".to_string();
    assert!(matches!(build_program_store(&cfg), Err(ProgramStoreError::MissingDir)));
    cfg.program_store_dir = Some("/var/lib/programs".to_string());
    match build_program_store(&cfg) {
        Ok(ProgramStoreChoice::Fs(dir)) => assert_eq!(dir, "/var/lib/programs"),
        _ => panic!("the fs store has a directory"),
    }
    cfg.program_store = "s3".to_string();
    match build_program_store(&cfg) {
        Err(ProgramStoreError::Unknown(name)) => assert_eq!(name, "s3"),
        _ => panic!("there is no such store"),
    }
}

#[test]
fn allowlist_mode_needs_addresses() {
    let mut cfg = base_cfg();
    let auth = build_auth(&cfg, Ok(vec![vec![1]])).unwrap();
    assert_eq!(auth.mode, AuthMode::Open);
    assert!(auth.allowlist.is_empty()); // none is set, so none is read
    cfg.auth_mode = AuthMode::Allowlist;
    assert!(matches!(build_auth(&cfg, Ok(vec![])), Err(AuthConfigError::EmptyAllowlist)));
    cfg.auth_allowlist = Some("0x01".to_string());
    assert_eq!(build_auth(&cfg, Ok(vec![vec![1]])).unwrap().allowlist, vec![vec![1]]);
    match build_auth(&cfg, Err("bad".to_string())) {
        Err(AuthConfigError::Allowlist(e)) => assert_eq!(e, "bad"),
        _ => panic!("the list could not be read"),
    }
    assert!(matches!(build_auth(&cfg, Ok(vec![])), Err(AuthConfigError::EmptyAllowlist)));
}

#[test]
fn startup_log_warns_of_footguns() {
    let mut cfg = base_cfg();
    let l = log_admission_config(&cfg);
    assert_eq!((l.range_cap, l.agg_cap, l.global_cap), (1, 2, None));
    assert_eq!((l.ranked_proposers, l.priority_ttl_secs), (0, 90));
    assert!(!l.warn_zero_cap && !l.warn_observed_only && !l.warn_unauthenticated);
    cfg.admission_enforce = true;
    cfg.admission_agg_max_inflight = 0;
    assert!(log_admission_config(&cfg).warn_zero_cap);
    cfg.admission_enforce = false;
    cfg.admission_priority_enable = true;
    cfg.admission_priority_order = Some(vec!["a".to_string(), "b".to_string()]);
    let l = log_admission_config(&cfg);
    assert!(!l.warn_zero_cap && l.warn_observed_only && l.warn_unauthenticated);
    assert_eq!(l.ranked_proposers, 2);
    cfg.auth_mode = AuthMode::Verify;
    assert!(!log_admission_config(&cfg).warn_unauthenticated);
}

#[test]
fn balance_defaults_to_the_largest_number() {
    let mut cfg = base_cfg();
    assert_eq!(
        balance_amount(&cfg),
        "115792089237316195423570985008687907853269984665640564039457584007913129639935"
    );
    cfg.balance_amount = Some("42".to_string());
    assert_eq!(balance_amount(&cfg), "42");
}

#[test]
fn node_settings_are_read() {
    assert_eq!(node_list("redis://a,redis://b"), vec!["redis://a", "redis://b"]);
    assert_eq!(node_list(""), vec![""]);
    assert_eq!(node_list(",é,"), vec!["", "é", ""]);
    assert_eq!(pool_size(None), 16);
    assert_eq!(pool_size(Some("8".to_string())), 8);
    assert_eq!(pool_size(Some("eight".to_string())), 16);
}

#[test]
fn refusals_say_why() {
    let words = |cfg: &Config| match build_admission(cfg) {
        Err(e) => e.message(cfg),
        Ok(_) => panic!("must be refused"),
    };
    let mut cfg = base_cfg();
    cfg.admission_reap_period_secs = 0;
    assert_eq!(words(&cfg), "GATEWAY_ADMISSION_REAP_PERIOD_SECS must be > 0");
    let mut cfg = base_cfg();
    cfg.admission_slot_ttl_secs = 90_000;
    assert_eq!(words(&cfg), "GATEWAY_ADMISSION_SLOT_TTL_SECS must be <= 86400 (got 90000)");
    let mut cfg = base_cfg();
    cfg.admission_slot_ttl_secs = 100;
    assert_eq!(
        words(&cfg),
        "GATEWAY_ADMISSION_RECONCILE_ABSENT_OBSERVATIONS (3) × GATEWAY_ADMISSION_REAP_PERIOD_SECS \
         (60) must be < GATEWAY_ADMISSION_SLOT_TTL_SECS (100), else the TTL backstop fires before \
         reconcile can release a gone proof"
    );
    let mut cfg = base_cfg();
    cfg.admission_range_vk_hashes = Some(vec!["xyz".to_string()]);
    assert_eq!(words(&cfg), "GATEWAY_ADMISSION_RANGE_VK_HASHES: invalid vk_hash xyz");
    let mut cfg = base_cfg();
    let a = "0b".repeat(20);
    cfg.admission_priority_order = Some(vec![format!("{a}:1"), format!("{a}:2")]);
    assert_eq!(
        words(&cfg),
        format!("GATEWAY_ADMISSION_PRIORITY_ORDER: PRIORITY_ORDER duplicate address: {a}")
    );
    assert_eq!(
        ProgramStoreError::Unknown("s3".to_string()).message(),
        "unknown GATEWAY_PROGRAM_STORE=s3 (expected memory or fs)"
    );
    assert_eq!(
        AuthConfigError::EmptyAllowlist.message(),
        "GATEWAY_AUTH_MODE=allowlist requires GATEWAY_AUTH_ALLOWLIST"
    );
}
