//! What the gateway says when it refuses its settings.
use vstd::prelude::*;
use vstd::string::*;

use crate::config::Config;
use crate::hexadecimal::{encode, hex_text};
use crate::setup::{AdmissionConfigError, AdmissionConfigFault, AuthConfigError, OrderError,
    OrderFault, ProgramStoreError};
use crate::text::{decimal, decimal_text, joined};

verus! {

impl OrderFault {
    /// The words for a faulty priority order.
    pub open spec fn words(self) -> Seq<char> {
        match self {
            OrderFault::MissingRank(s) => "PRIORITY_ORDER entry missing ':' rank: "@ + s,
            OrderFault::InvalidAddress(s) => "PRIORITY_ORDER invalid address "@ + s,
            OrderFault::AddressLength(s) => "PRIORITY_ORDER address must be 20 bytes: "@ + s,
            OrderFault::InvalidRank(s) => "PRIORITY_ORDER invalid rank in "@ + s,
            OrderFault::Duplicate(b) => "PRIORITY_ORDER duplicate address: "@ + hex_text(b),
        }
    }
}

impl OrderError {
    /// The words for a faulty priority order.
    pub fn message(&self) -> (s: String)
        ensures
            s@ == self@.words(),
    {
        match self {
            OrderError::MissingRank(s) => joined(
                "PRIORITY_ORDER entry missing ':' rank: ",
                s.as_str(),
            ),
            OrderError::InvalidAddress(s) => joined("PRIORITY_ORDER invalid address ", s.as_str()),
            OrderError::AddressLength(s) => joined(
                "PRIORITY_ORDER address must be 20 bytes: ",
                s.as_str(),
            ),
            OrderError::InvalidRank(s) => joined("PRIORITY_ORDER invalid rank in ", s.as_str()),
            OrderError::Duplicate(b) => joined(
                "PRIORITY_ORDER duplicate address: ",
                encode(b.as_slice()).as_str(),
            ),
        }
    }
}

impl AdmissionConfigFault {
    /// The words for refused admission settings.
    pub open spec fn words(self, cfg: Config) -> Seq<char> {
        match self {
            AdmissionConfigFault::ReapPeriodZero => "GATEWAY_ADMISSION_REAP_PERIOD_SECS must be > 0"@,
            AdmissionConfigFault::SlotTtlZero => "GATEWAY_ADMISSION_SLOT_TTL_SECS must be > 0"@,
            AdmissionConfigFault::FetchTimeoutZero => "GATEWAY_ADMISSION_RECONCILE_FETCH_TIMEOUT_SECS must be > 0 (0 makes the reconcile query time out every tick → reconcile never runs)"@,
            AdmissionConfigFault::FetchTimeoutAboveReapPeriod => "GATEWAY_ADMISSION_RECONCILE_FETCH_TIMEOUT_SECS ("@ + decimal(cfg.admission_reconcile_fetch_timeout_secs as nat) + ") must be <= GATEWAY_ADMISSION_REAP_PERIOD_SECS ("@ + decimal(cfg.admission_reap_period_secs as nat) + "), else a slow cluster query stalls the reap cadence"@,
            AdmissionConfigFault::ReapPeriodNotBelowTtl => "GATEWAY_ADMISSION_REAP_PERIOD_SECS ("@ + decimal(cfg.admission_reap_period_secs as nat) + ") must be < GATEWAY_ADMISSION_SLOT_TTL_SECS ("@ + decimal(cfg.admission_slot_ttl_secs as nat) + ")"@,
            AdmissionConfigFault::TtlTooLong => "GATEWAY_ADMISSION_SLOT_TTL_SECS must be <= 86400 (got "@ + decimal(cfg.admission_slot_ttl_secs as nat) + ")"@,
            AdmissionConfigFault::AbsentObservationsBelowTwo => "GATEWAY_ADMISSION_RECONCILE_ABSENT_OBSERVATIONS ("@ + decimal(cfg.admission_reconcile_absent_observations as nat) + ") must be >= 2 (1 would release a slot on the first absent reconcile, defeating debounce)"@,
            AdmissionConfigFault::AbsenceWindowReachesTtl => "GATEWAY_ADMISSION_RECONCILE_ABSENT_OBSERVATIONS ("@ + decimal(cfg.admission_reconcile_absent_observations as nat) + ") × GATEWAY_ADMISSION_REAP_PERIOD_SECS ("@ + decimal(cfg.admission_reap_period_secs as nat) + ") must be < GATEWAY_ADMISSION_SLOT_TTL_SECS ("@ + decimal(cfg.admission_slot_ttl_secs as nat) + "), else the TTL backstop fires before reconcile can release a gone proof"@,
            AdmissionConfigFault::CommitGraceReachesTtl => "GATEWAY_ADMISSION_RECONCILE_COMMIT_GRACE_SECS ("@ + decimal(cfg.admission_reconcile_commit_grace_secs as nat) + ") must be < GATEWAY_ADMISSION_SLOT_TTL_SECS ("@ + decimal(cfg.admission_slot_ttl_secs as nat) + "), else the TTL backstop reaps a committed slot before the post-commit grace elapses"@,
            AdmissionConfigFault::PriorityTtlZero => "GATEWAY_ADMISSION_PRIORITY_TTL_SECS must be > 0 when priority is enabled (0 makes every demand instantly stale → priority never fires)"@,
            AdmissionConfigFault::RangeCapZero => "GATEWAY_ADMISSION_RANGE_MAX_INFLIGHT must be > 0 when GATEWAY_ADMISSION_ENFORCE=true (0 sheds every range proof)"@,
            AdmissionConfigFault::AggCapZero => "GATEWAY_ADMISSION_AGG_MAX_INFLIGHT must be > 0 when GATEWAY_ADMISSION_ENFORCE=true (0 sheds every aggregation proof)"@,
            AdmissionConfigFault::GlobalCapZero => "GATEWAY_ADMISSION_GLOBAL_MAX_INFLIGHT must be > 0 when set with GATEWAY_ADMISSION_ENFORCE=true (0 sheds every classified proof)"@,
            AdmissionConfigFault::RangeVkHashes(s) =>
                "GATEWAY_ADMISSION_RANGE_VK_HASHES: invalid vk_hash "@ + s,
            AdmissionConfigFault::AggVkHashes(s) =>
                "GATEWAY_ADMISSION_AGG_VK_HASHES: invalid vk_hash "@ + s,
            AdmissionConfigFault::PriorityOrder(e) => "GATEWAY_ADMISSION_PRIORITY_ORDER: "@
                + e.words(),
        }
    }
}

impl AdmissionConfigError {
    /// The words for refused admission settings `cfg`.
    pub fn message(&self, cfg: &Config) -> (s: String)
        ensures
            s@ == self@.words(*cfg),
    {
        match self {
            AdmissionConfigError::ReapPeriodZero => "GATEWAY_ADMISSION_REAP_PERIOD_SECS must be > 0".to_owned(),
            AdmissionConfigError::SlotTtlZero => "GATEWAY_ADMISSION_SLOT_TTL_SECS must be > 0".to_owned(),
            AdmissionConfigError::FetchTimeoutZero => "GATEWAY_ADMISSION_RECONCILE_FETCH_TIMEOUT_SECS must be > 0 (0 makes the reconcile query time out every tick → reconcile never runs)".to_owned(),
            AdmissionConfigError::FetchTimeoutAboveReapPeriod => {
                let mut s = "GATEWAY_ADMISSION_RECONCILE_FETCH_TIMEOUT_SECS (".to_owned();
                s.append(decimal_text(cfg.admission_reconcile_fetch_timeout_secs as u64).as_str());
                s.append(") must be <= GATEWAY_ADMISSION_REAP_PERIOD_SECS (");
                s.append(decimal_text(cfg.admission_reap_period_secs as u64).as_str());
                s.append("), else a slow cluster query stalls the reap cadence");
                s
            },
            AdmissionConfigError::ReapPeriodNotBelowTtl => {
                let mut s = "GATEWAY_ADMISSION_REAP_PERIOD_SECS (".to_owned();
                s.append(decimal_text(cfg.admission_reap_period_secs as u64).as_str());
                s.append(") must be < GATEWAY_ADMISSION_SLOT_TTL_SECS (");
                s.append(decimal_text(cfg.admission_slot_ttl_secs as u64).as_str());
                s.append(")");
                s
            },
            AdmissionConfigError::TtlTooLong => {
                let mut s = "GATEWAY_ADMISSION_SLOT_TTL_SECS must be <= 86400 (got ".to_owned();
                s.append(decimal_text(cfg.admission_slot_ttl_secs as u64).as_str());
                s.append(")");
                s
            },
            AdmissionConfigError::AbsentObservationsBelowTwo => {
                let mut s = "GATEWAY_ADMISSION_RECONCILE_ABSENT_OBSERVATIONS (".to_owned();
                s.append(decimal_text(cfg.admission_reconcile_absent_observations as u64).as_str());
                s.append(") must be >= 2 (1 would release a slot on the first absent reconcile, defeating debounce)");
                s
            },
            AdmissionConfigError::AbsenceWindowReachesTtl => {
                let mut s = "GATEWAY_ADMISSION_RECONCILE_ABSENT_OBSERVATIONS (".to_owned();
                s.append(decimal_text(cfg.admission_reconcile_absent_observations as u64).as_str());
                s.append(") × GATEWAY_ADMISSION_REAP_PERIOD_SECS (");
                s.append(decimal_text(cfg.admission_reap_period_secs as u64).as_str());
                s.append(") must be < GATEWAY_ADMISSION_SLOT_TTL_SECS (");
                s.append(decimal_text(cfg.admission_slot_ttl_secs as u64).as_str());
                s.append("), else the TTL backstop fires before reconcile can release a gone proof");
                s
            },
            AdmissionConfigError::CommitGraceReachesTtl => {
                let mut s = "GATEWAY_ADMISSION_RECONCILE_COMMIT_GRACE_SECS (".to_owned();
                s.append(decimal_text(cfg.admission_reconcile_commit_grace_secs as u64).as_str());
                s.append(") must be < GATEWAY_ADMISSION_SLOT_TTL_SECS (");
                s.append(decimal_text(cfg.admission_slot_ttl_secs as u64).as_str());
                s.append("), else the TTL backstop reaps a committed slot before the post-commit grace elapses");
                s
            },
            AdmissionConfigError::PriorityTtlZero => "GATEWAY_ADMISSION_PRIORITY_TTL_SECS must be > 0 when priority is enabled (0 makes every demand instantly stale → priority never fires)".to_owned(),
            AdmissionConfigError::RangeCapZero => "GATEWAY_ADMISSION_RANGE_MAX_INFLIGHT must be > 0 when GATEWAY_ADMISSION_ENFORCE=true (0 sheds every range proof)".to_owned(),
            AdmissionConfigError::AggCapZero => "GATEWAY_ADMISSION_AGG_MAX_INFLIGHT must be > 0 when GATEWAY_ADMISSION_ENFORCE=true (0 sheds every aggregation proof)".to_owned(),
            AdmissionConfigError::GlobalCapZero => "GATEWAY_ADMISSION_GLOBAL_MAX_INFLIGHT must be > 0 when set with GATEWAY_ADMISSION_ENFORCE=true (0 sheds every classified proof)".to_owned(),
            AdmissionConfigError::RangeVkHashes(s) => joined(
                "GATEWAY_ADMISSION_RANGE_VK_HASHES: invalid vk_hash ",
                s.as_str(),
            ),
            AdmissionConfigError::AggVkHashes(s) => joined(
                "GATEWAY_ADMISSION_AGG_VK_HASHES: invalid vk_hash ",
                s.as_str(),
            ),
            AdmissionConfigError::PriorityOrder(e) => joined(
                "GATEWAY_ADMISSION_PRIORITY_ORDER: ",
                e.message().as_str(),
            ),
        }
    }
}

impl ProgramStoreError {
    /// The words for refused program-store settings.
    pub fn message(&self) -> (s: String)
        ensures
            s@ == match *self {
                ProgramStoreError::MissingDir =>
                    "GATEWAY_PROGRAM_STORE_DIR is required when program_store=fs"@,
                ProgramStoreError::Unknown(name) => "unknown GATEWAY_PROGRAM_STORE="@ + name@
                    + " (expected memory or fs)"@,
            },
    {
        match self {
            ProgramStoreError::MissingDir =>
                "GATEWAY_PROGRAM_STORE_DIR is required when program_store=fs".to_owned(),
            ProgramStoreError::Unknown(name) => {
                let mut s = joined("unknown GATEWAY_PROGRAM_STORE=", name.as_str());
                s.append(" (expected memory or fs)");
                s
            },
        }
    }
}

impl AuthConfigError {
    /// The words for refused authentication settings.
    pub fn message(&self) -> (s: String)
        ensures
            s@ == match *self {
                AuthConfigError::Allowlist(e) => "GATEWAY_AUTH_ALLOWLIST: "@ + e@,
                AuthConfigError::EmptyAllowlist =>
                    "GATEWAY_AUTH_MODE=allowlist requires GATEWAY_AUTH_ALLOWLIST"@,
            },
    {
        match self {
            AuthConfigError::Allowlist(e) => joined("GATEWAY_AUTH_ALLOWLIST: ", e.as_str()),
            AuthConfigError::EmptyAllowlist =>
                "GATEWAY_AUTH_MODE=allowlist requires GATEWAY_AUTH_ALLOWLIST".to_owned(),
        }
    }
}

/// `text` stands in `words`.
pub open spec fn tells(words: Seq<char>, text: Seq<char>) -> bool {
    exists|a: Seq<char>, b: Seq<char>| words == #[trigger] (a + text + b)
}

/// Words that end with a text tell it, and so do longer words.
proof fn lemma_tells()
    ensures
        forall|a: Seq<char>, t: Seq<char>| #[trigger] tells(a + t, t),
        forall|w: Seq<char>, x: Seq<char>, t: Seq<char>|
            tells(w, t) ==> #[trigger] tells(w + x, t),
{
    assert forall|a: Seq<char>, t: Seq<char>| #[trigger] tells(a + t, t) by {
        assert(a + t =~= a + t + Seq::<char>::empty());
    }
    assert forall|w: Seq<char>, x: Seq<char>, t: Seq<char>| tells(w, t) implies #[trigger] tells(
        w + x,
        t,
    ) by {
        let (a, b) = choose|a: Seq<char>, b: Seq<char>| w == #[trigger] (a + t + b);
        assert(w + x =~= a + t + (b + x));
    }
}

/// The words for refused settings tell the values that do not go together, or
/// the text that could not be read.
pub proof fn law_words_tell_values(f: AdmissionConfigFault, cfg: Config)
    ensures
        ({
            let w = f.words(cfg);
            let reap = decimal(cfg.admission_reap_period_secs as nat);
            let ttl = decimal(cfg.admission_slot_ttl_secs as nat);
            let fetch = decimal(cfg.admission_reconcile_fetch_timeout_secs as nat);
            let seen = decimal(cfg.admission_reconcile_absent_observations as nat);
            let grace = decimal(cfg.admission_reconcile_commit_grace_secs as nat);
            match f {
                AdmissionConfigFault::FetchTimeoutAboveReapPeriod => tells(w, fetch) && tells(
                    w,
                    reap,
                ),
                AdmissionConfigFault::ReapPeriodNotBelowTtl => tells(w, reap) && tells(w, ttl),
                AdmissionConfigFault::TtlTooLong => tells(w, ttl),
                AdmissionConfigFault::AbsentObservationsBelowTwo => tells(w, seen),
                AdmissionConfigFault::AbsenceWindowReachesTtl => tells(w, seen) && tells(w, reap)
                    && tells(w, ttl),
                AdmissionConfigFault::CommitGraceReachesTtl => tells(w, grace) && tells(w, ttl),
                AdmissionConfigFault::RangeVkHashes(s) => tells(w, s),
                AdmissionConfigFault::AggVkHashes(s) => tells(w, s),
                AdmissionConfigFault::PriorityOrder(e) => tells(w, e.words()),
                _ => true,
            }
        }),
{
    lemma_tells();
}

/// The words for a faulty priority order tell the entry, or the address that is
/// listed twice.
pub proof fn law_order_words_tell_values(f: OrderFault)
    ensures
        match f {
            OrderFault::MissingRank(s) => tells(f.words(), s),
            OrderFault::InvalidAddress(s) => tells(f.words(), s),
            OrderFault::AddressLength(s) => tells(f.words(), s),
            OrderFault::InvalidRank(s) => tells(f.words(), s),
            OrderFault::Duplicate(b) => tells(f.words(), hex_text(b)),
        },
{
    lemma_tells();
}

} // verus!
