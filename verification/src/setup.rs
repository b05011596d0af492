//! From settings to the parts of the gateway.
use vstd::prelude::*;
use vstd::slice::slice_subrange;
use vstd::string::*;

use crate::admission::AdmissionController;
use crate::classifier::{Classifier, ClassifierView};
use crate::config::{AuthMode, Config};
use crate::gate::GateView;
use crate::hexadecimal::{decode, hex_bytes, is_hex};
use crate::pool::PerPool;
use crate::slots::views;
use crate::tables::{byte_views, RankTable};
use crate::text::{chars_of, find_char, lemma_find_char, position, read_unsigned, same_text, split_by,
    split_text, strip_0x, trim, trim_bounds, trimmed, unsigned_number, without_0x};
use crate::time::Duration;

verus! {

/// The longest slot TTL that is accepted: one day.
pub const MAX_TTL_SECS: u64 = 86_400;

/// Bytes in a proposer address.
pub const ADDRESS_LEN: usize = 20;

/// The key hashes that entries list, in order. Blank entries are skipped; the
/// first entry that is not hex is the error.
pub open spec fn vk_list(entries: Seq<Seq<char>>) -> Result<Seq<Seq<u8>>, Seq<char>>
    decreases entries.len(),
{
    if entries.len() == 0 {
        Ok(Seq::empty())
    } else {
        match vk_list(entries.drop_last()) {
            Err(e) => Err(e),
            Ok(v) => {
                let s = trimmed(entries.last());
                if s.len() == 0 {
                    Ok(v)
                } else if is_hex(without_0x(s)) {
                    Ok(v.push(hex_bytes(without_0x(s))))
                } else {
                    Err(s)
                }
            },
        }
    }
}

/// An error is not healed by later entries.
proof fn lemma_vk_list_fails(entries: Seq<Seq<char>>, n: int)
    requires
        0 <= n <= entries.len(),
        vk_list(entries.take(n)) is Err,
    ensures
        vk_list(entries) == vk_list(entries.take(n)),
    decreases entries.len() - n,
{
    if n == entries.len() {
        assert(entries.take(n) =~= entries);
    } else {
        assert(entries.take(n + 1).drop_last() =~= entries.take(n));
        lemma_vk_list_fails(entries, n + 1);
    }
}

/// The texts of optional entries.
pub open spec fn entry_texts(input: Option<&[String]>) -> Seq<Seq<char>> {
    match input {
        Some(v) => views(v@),
        None => Seq::empty(),
    }
}

/// Reads key hashes: hex, with or without `0x`. The error is the first entry
/// that is not hex.
pub fn parse_vk_hashes(input: Option<&[String]>) -> (r: Result<Vec<Vec<u8>>, String>)
    ensures
        match r {
            Ok(v) => vk_list(entry_texts(input)) == Ok::<Seq<Seq<u8>>, Seq<char>>(byte_views(v@)),
            Err(e) => vk_list(entry_texts(input)) == Err::<Seq<Seq<u8>>, Seq<char>>(e@),
        },
{
    let mut out: Vec<Vec<u8>> = Vec::new();
    let entries = match input {
        Some(entries) => entries,
        None => {
            assert(byte_views(out@) =~= Seq::empty());
            return Ok(out);
        },
    };
    let ghost all = views(entries@);
    let mut i: usize = 0;
    proof {
        assert(all.take(0) =~= Seq::empty());
        assert(byte_views(out@) =~= Seq::empty());
    }
    while i < entries.len()
        invariant
            i <= entries@.len(),
            input == Some(entries),
            all == views(entries@),
            vk_list(all.take(i as int)) == Ok::<Seq<Seq<u8>>, Seq<char>>(byte_views(out@)),
        decreases entries@.len() - i,
    {
        let raw = entries[i].as_str();
        let chars = chars_of(raw);
        let (from, to) = trim_bounds(chars.as_slice());
        let ghost before = out@;
        proof {
            assert(all.take(i as int + 1).drop_last() =~= all.take(i as int));
            assert(all.take(i as int + 1).last() == raw@);
        }
        if from < to {
            let s = slice_subrange(chars.as_slice(), from, to);
            match decode(strip_0x(s)) {
                Ok(bytes) => {
                    out.push(bytes);
                    assert(byte_views(out@) =~= byte_views(before).push(bytes@));
                },
                Err(_) => {
                    proof {
                        lemma_vk_list_fails(all, i as int + 1);
                    }
                    return Err(raw.substring_char(from, to).to_owned());
                },
            }
        }
        i = i + 1;
    }
    assert(all.take(all.len() as int) =~= all);
    Ok(out)
}

/// What is wrong with a priority order.
#[derive(Debug)]
pub enum OrderError {
    /// The entry has no `:`.
    MissingRank(String),
    /// The address is not hex.
    InvalidAddress(String),
    /// The address of the entry has the wrong length.
    AddressLength(String),
    /// The rank of the entry is not a number.
    InvalidRank(String),
    /// The address is listed twice.
    Duplicate(Vec<u8>),
}

/// What is wrong with a priority order.
pub enum OrderFault {
    MissingRank(Seq<char>),
    InvalidAddress(Seq<char>),
    AddressLength(Seq<char>),
    InvalidRank(Seq<char>),
    Duplicate(Seq<u8>),
}

impl View for OrderError {
    type V = OrderFault;

    open spec fn view(&self) -> OrderFault {
        match *self {
            OrderError::MissingRank(s) => OrderFault::MissingRank(s@),
            OrderError::InvalidAddress(s) => OrderFault::InvalidAddress(s@),
            OrderError::AddressLength(s) => OrderFault::AddressLength(s@),
            OrderError::InvalidRank(s) => OrderFault::InvalidRank(s@),
            OrderError::Duplicate(b) => OrderFault::Duplicate(b@),
        }
    }
}

/// The address and rank that a trimmed entry gives.
pub open spec fn order_entry(s: Seq<char>) -> Result<(Seq<u8>, u32), OrderFault> {
    let n = find_char(s, ':') as int;
    if n >= s.len() {
        Err(OrderFault::MissingRank(s))
    } else {
        let addr = without_0x(trimmed(s.take(n)));
        let rank = unsigned_number(trimmed(s.skip(n + 1)), u32::MAX as nat);
        if !is_hex(addr) {
            Err(OrderFault::InvalidAddress(s.take(n)))
        } else if hex_bytes(addr).len() != ADDRESS_LEN {
            Err(OrderFault::AddressLength(s))
        } else if rank is None {
            Err(OrderFault::InvalidRank(s))
        } else {
            Ok((hex_bytes(addr), rank->0 as u32))
        }
    }
}

/// The ranks that entries list. Blank entries are skipped; the first faulty
/// entry is the error, and an address may be listed once.
pub open spec fn rank_list(entries: Seq<Seq<char>>) -> Result<Map<Seq<u8>, u32>, OrderFault>
    decreases entries.len(),
{
    if entries.len() == 0 {
        Ok(Map::empty())
    } else {
        match rank_list(entries.drop_last()) {
            Err(e) => Err(e),
            Ok(m) => {
                let s = trimmed(entries.last());
                if s.len() == 0 {
                    Ok(m)
                } else {
                    match order_entry(s) {
                        Err(e) => Err(e),
                        Ok((addr, rank)) => if m.contains_key(addr) {
                            Err(OrderFault::Duplicate(addr))
                        } else {
                            Ok(m.insert(addr, rank))
                        },
                    }
                }
            },
        }
    }
}

/// An error is not healed by later entries.
proof fn lemma_rank_list_fails(entries: Seq<Seq<char>>, n: int)
    requires
        0 <= n <= entries.len(),
        rank_list(entries.take(n)) is Err,
    ensures
        rank_list(entries) == rank_list(entries.take(n)),
    decreases entries.len() - n,
{
    if n == entries.len() {
        assert(entries.take(n) =~= entries);
    } else {
        assert(entries.take(n + 1).drop_last() =~= entries.take(n));
        lemma_rank_list_fails(entries, n + 1);
    }
}

/// Reads one entry, already trimmed: `text` and its characters.
fn parse_order_entry(text: &str) -> (r: Result<(Vec<u8>, u32), OrderError>)
    ensures
        match r {
            Ok((addr, rank)) => order_entry(text@) == Ok::<(Seq<u8>, u32), OrderFault>(
                (addr@, rank),
            ),
            Err(e) => order_entry(text@) == Err::<(Seq<u8>, u32), OrderFault>(e@),
        },
{
    let chars = chars_of(text);
    let s = chars.as_slice();
    let n: usize = position(s, ':');
    proof {
        lemma_find_char(s@, ':');
    }
    if n >= s.len() {
        return Err(OrderError::MissingRank(text.to_owned()));
    }
    let head = slice_subrange(s, 0, n);
    let tail = slice_subrange(s, n + 1, s.len());
    assert(head@ =~= text@.take(n as int));
    assert(tail@ =~= text@.skip(n as int + 1));
    let addr = match decode(strip_0x(trim(head))) {
        Ok(addr) => addr,
        Err(_) => {
            assert(text@.subrange(0, n as int) =~= text@.take(n as int));
            return Err(OrderError::InvalidAddress(text.substring_char(0, n).to_owned()));
        },
    };
    if addr.len() != ADDRESS_LEN {
        return Err(OrderError::AddressLength(text.to_owned()));
    }
    match read_unsigned(trim(tail), u32::MAX as u64) {
        Some(rank) => Ok((addr, rank as u32)),
        None => Err(OrderError::InvalidRank(text.to_owned())),
    }
}

/// Reads `0xADDR:RANK` entries into ranks by address. Lower rank is higher
/// priority.
pub fn parse_priority_order(input: Option<&[String]>) -> (r: Result<RankTable, OrderError>)
    ensures
        match r {
            Ok(t) => t.wf() && rank_list(entry_texts(input)) == Ok::<
                Map<Seq<u8>, u32>,
                OrderFault,
            >(t@),
            Err(e) => rank_list(entry_texts(input)) == Err::<Map<Seq<u8>, u32>, OrderFault>(e@),
        },
{
    let mut table = RankTable::new();
    let entries = match input {
        Some(entries) => entries,
        None => {
            return Ok(table);
        },
    };
    let ghost all = views(entries@);
    let mut i: usize = 0;
    assert(all.take(0) =~= Seq::empty());
    while i < entries.len()
        invariant
            i <= entries@.len(),
            input == Some(entries),
            all == views(entries@),
            table.wf(),
            rank_list(all.take(i as int)) == Ok::<Map<Seq<u8>, u32>, OrderFault>(table@),
        decreases entries@.len() - i,
    {
        let raw = entries[i].as_str();
        let chars = chars_of(raw);
        let (from, to) = trim_bounds(chars.as_slice());
        proof {
            assert(all.take(i as int + 1).drop_last() =~= all.take(i as int));
            assert(all.take(i as int + 1).last() == raw@);
        }
        if from < to {
            match parse_order_entry(raw.substring_char(from, to)) {
                Ok((addr, rank)) => {
                    let copy = addr.clone();
                    assert(copy@ =~= addr@);
                    if !table.insert(addr, rank) {
                        proof {
                            lemma_rank_list_fails(all, i as int + 1);
                        }
                        return Err(OrderError::Duplicate(copy));
                    }
                },
                Err(e) => {
                    proof {
                        lemma_rank_list_fails(all, i as int + 1);
                    }
                    return Err(e);
                },
            }
        }
        i = i + 1;
    }
    assert(all.take(all.len() as int) =~= all);
    Ok(table)
}

/// Why the admission settings are refused.
#[derive(Debug)]
pub enum AdmissionConfigError {
    /// The reap period must be positive.
    ReapPeriodZero,
    /// The slot TTL must be positive.
    SlotTtlZero,
    /// The fetch timeout must be positive, or reconcile never runs.
    FetchTimeoutZero,
    /// The fetch timeout must fit one reap period.
    FetchTimeoutAboveReapPeriod,
    /// The reap period must be below the TTL.
    ReapPeriodNotBelowTtl,
    /// The TTL must be at most a day.
    TtlTooLong,
    /// Absence must be observed twice at least.
    AbsentObservationsBelowTwo,
    /// The absence window must stay below the TTL.
    AbsenceWindowReachesTtl,
    /// The post-commit grace must stay below the TTL.
    CommitGraceReachesTtl,
    /// With priority on, its TTL must be positive.
    PriorityTtlZero,
    /// An enforcing gate needs a positive range cap.
    RangeCapZero,
    /// An enforcing gate needs a positive aggregation cap.
    AggCapZero,
    /// An enforcing gate needs a positive global cap, if it has one.
    GlobalCapZero,
    /// A range key hash is not hex.
    RangeVkHashes(String),
    /// An aggregation key hash is not hex.
    AggVkHashes(String),
    /// The priority order is faulty.
    PriorityOrder(OrderError),
}

/// Why the admission settings are refused.
pub enum AdmissionConfigFault {
    ReapPeriodZero,
    SlotTtlZero,
    FetchTimeoutZero,
    FetchTimeoutAboveReapPeriod,
    ReapPeriodNotBelowTtl,
    TtlTooLong,
    AbsentObservationsBelowTwo,
    AbsenceWindowReachesTtl,
    CommitGraceReachesTtl,
    PriorityTtlZero,
    RangeCapZero,
    AggCapZero,
    GlobalCapZero,
    RangeVkHashes(Seq<char>),
    AggVkHashes(Seq<char>),
    PriorityOrder(OrderFault),
}

impl View for AdmissionConfigError {
    type V = AdmissionConfigFault;

    open spec fn view(&self) -> AdmissionConfigFault {
        match *self {
            AdmissionConfigError::ReapPeriodZero => AdmissionConfigFault::ReapPeriodZero,
            AdmissionConfigError::SlotTtlZero => AdmissionConfigFault::SlotTtlZero,
            AdmissionConfigError::FetchTimeoutZero => AdmissionConfigFault::FetchTimeoutZero,
            AdmissionConfigError::FetchTimeoutAboveReapPeriod =>
                AdmissionConfigFault::FetchTimeoutAboveReapPeriod,
            AdmissionConfigError::ReapPeriodNotBelowTtl =>
                AdmissionConfigFault::ReapPeriodNotBelowTtl,
            AdmissionConfigError::TtlTooLong => AdmissionConfigFault::TtlTooLong,
            AdmissionConfigError::AbsentObservationsBelowTwo =>
                AdmissionConfigFault::AbsentObservationsBelowTwo,
            AdmissionConfigError::AbsenceWindowReachesTtl =>
                AdmissionConfigFault::AbsenceWindowReachesTtl,
            AdmissionConfigError::CommitGraceReachesTtl =>
                AdmissionConfigFault::CommitGraceReachesTtl,
            AdmissionConfigError::PriorityTtlZero => AdmissionConfigFault::PriorityTtlZero,
            AdmissionConfigError::RangeCapZero => AdmissionConfigFault::RangeCapZero,
            AdmissionConfigError::AggCapZero => AdmissionConfigFault::AggCapZero,
            AdmissionConfigError::GlobalCapZero => AdmissionConfigFault::GlobalCapZero,
            AdmissionConfigError::RangeVkHashes(s) => AdmissionConfigFault::RangeVkHashes(s@),
            AdmissionConfigError::AggVkHashes(s) => AdmissionConfigFault::AggVkHashes(s@),
            AdmissionConfigError::PriorityOrder(e) => AdmissionConfigFault::PriorityOrder(e@),
        }
    }
}

/// The texts of an optional list of entries.
pub open spec fn list_texts(input: Option<Vec<String>>) -> Seq<Seq<char>> {
    match input {
        Some(v) => views(v@),
        None => Seq::empty(),
    }
}

/// The first thing that is wrong with the admission settings, if anything is.
pub open spec fn admission_fault(cfg: Config) -> Option<AdmissionConfigFault> {
    let reap = cfg.admission_reap_period_secs;
    let ttl = cfg.admission_slot_ttl_secs;
    let fetch = cfg.admission_reconcile_fetch_timeout_secs;
    let seen = cfg.admission_reconcile_absent_observations;
    if reap == 0 {
        Some(AdmissionConfigFault::ReapPeriodZero)
    } else if ttl == 0 {
        Some(AdmissionConfigFault::SlotTtlZero)
    } else if fetch == 0 {
        Some(AdmissionConfigFault::FetchTimeoutZero)
    } else if fetch > reap {
        Some(AdmissionConfigFault::FetchTimeoutAboveReapPeriod)
    } else if reap >= ttl {
        Some(AdmissionConfigFault::ReapPeriodNotBelowTtl)
    } else if ttl > MAX_TTL_SECS {
        Some(AdmissionConfigFault::TtlTooLong)
    } else if seen < 2 {
        Some(AdmissionConfigFault::AbsentObservationsBelowTwo)
    } else if seen * reap >= ttl {
        Some(AdmissionConfigFault::AbsenceWindowReachesTtl)
    } else if cfg.admission_reconcile_commit_grace_secs >= ttl {
        Some(AdmissionConfigFault::CommitGraceReachesTtl)
    } else if cfg.admission_priority_enable && cfg.admission_priority_ttl_secs == 0 {
        Some(AdmissionConfigFault::PriorityTtlZero)
    } else if cfg.admission_enforce && cfg.admission_range_max_inflight == 0 {
        Some(AdmissionConfigFault::RangeCapZero)
    } else if cfg.admission_enforce && cfg.admission_agg_max_inflight == 0 {
        Some(AdmissionConfigFault::AggCapZero)
    } else if cfg.admission_enforce && cfg.admission_global_max_inflight == Some(0usize) {
        Some(AdmissionConfigFault::GlobalCapZero)
    } else {
        match vk_list(list_texts(cfg.admission_range_vk_hashes)) {
            Err(s) => Some(AdmissionConfigFault::RangeVkHashes(s)),
            Ok(_) => match vk_list(list_texts(cfg.admission_agg_vk_hashes)) {
                Err(s) => Some(AdmissionConfigFault::AggVkHashes(s)),
                Ok(_) => match rank_list(list_texts(cfg.admission_priority_order)) {
                    Err(e) => Some(AdmissionConfigFault::PriorityOrder(e)),
                    Ok(_) => None,
                },
            },
        }
    }
}

/// A span of whole seconds.
pub open spec fn secs(n: u64) -> Duration {
    Duration { secs: n, subsec_nanos: 0 }
}

/// The controller that faultless settings describe.
pub open spec fn configured_gate(cfg: Config) -> GateView {
    GateView {
        caps: PerPool {
            range: cfg.admission_range_max_inflight,
            agg: cfg.admission_agg_max_inflight,
        },
        global_cap: cfg.admission_global_max_inflight,
        enforce: cfg.admission_enforce,
        ttl: secs(cfg.admission_slot_ttl_secs),
        commit_grace: secs(cfg.admission_reconcile_commit_grace_secs),
        classifier: ClassifierView {
            range_vks: vk_list(list_texts(cfg.admission_range_vk_hashes))->Ok_0.to_set(),
            agg_vks: vk_list(list_texts(cfg.admission_agg_vk_hashes))->Ok_0.to_set(),
        },
        ranks: rank_list(list_texts(cfg.admission_priority_order))->Ok_0,
        priority_enable: cfg.admission_priority_enable,
        priority_ttl: secs(cfg.admission_priority_ttl_secs),
        counts: PerPool { range: 0, agg: 0 },
        slots: Map::empty(),
        demand: Map::empty(),
        metrics: None,
        last: secs(0),
    }
}

/// The entries of an optional list.
fn entries_of(v: &Option<Vec<String>>) -> (r: Option<&[String]>)
    ensures
        entry_texts(r) == list_texts(*v),
{
    match v {
        Some(v) => Some(v.as_slice()),
        None => None,
    }
}

/// Builds the admission gate from the settings. Settings under which the controller
/// could not work are refused at boot: a period or TTL of zero, windows that
/// the TTL backstop would overtake, or caps that shed everything.
pub fn build_admission(cfg: &Config) -> (r: Result<AdmissionController, AdmissionConfigError>)
    ensures
        match r {
            Ok(g) => {
                &&& admission_fault(*cfg) is None
                &&& g.wf()
                &&& g@ == configured_gate(*cfg)
                &&& g@.caps.range == cfg.admission_range_max_inflight
                &&& g@.caps.agg == cfg.admission_agg_max_inflight
                &&& g@.global_cap == cfg.admission_global_max_inflight
                &&& g@.enforce == cfg.admission_enforce
                &&& g@.ttl.secs == cfg.admission_slot_ttl_secs
                &&& g@.ttl.subsec_nanos == 0
                &&& g@.commit_grace.secs == cfg.admission_reconcile_commit_grace_secs
                &&& g@.commit_grace.subsec_nanos == 0
                &&& g@.priority_enable == cfg.admission_priority_enable
                &&& g@.priority_ttl.secs == cfg.admission_priority_ttl_secs
                &&& g@.priority_ttl.subsec_nanos == 0
                &&& g@.counts.range == 0 && g@.counts.agg == 0
                &&& g@.slots.dom() == Set::<Seq<char>>::empty()
                &&& g@.demand.dom() == Set::<(crate::pool::PoolId, Seq<u8>)>::empty()
                &&& g@.metrics is None
            },
            Err(e) => admission_fault(*cfg) == Some(e@),
        },
{
    if cfg.admission_reap_period_secs == 0 {
        return Err(AdmissionConfigError::ReapPeriodZero);
    }
    if cfg.admission_slot_ttl_secs == 0 {
        return Err(AdmissionConfigError::SlotTtlZero);
    }
    if cfg.admission_reconcile_fetch_timeout_secs == 0 {
        return Err(AdmissionConfigError::FetchTimeoutZero);
    }
    if cfg.admission_reconcile_fetch_timeout_secs > cfg.admission_reap_period_secs {
        return Err(AdmissionConfigError::FetchTimeoutAboveReapPeriod);
    }
    if cfg.admission_reap_period_secs >= cfg.admission_slot_ttl_secs {
        return Err(AdmissionConfigError::ReapPeriodNotBelowTtl);
    }
    if cfg.admission_slot_ttl_secs > MAX_TTL_SECS {
        return Err(AdmissionConfigError::TtlTooLong);
    }
    if cfg.admission_reconcile_absent_observations < 2 {
        return Err(AdmissionConfigError::AbsentObservationsBelowTwo);
    }
    let window: u64 = absence_window(
        cfg.admission_reconcile_absent_observations,
        cfg.admission_reap_period_secs,
    );
    if window >= cfg.admission_slot_ttl_secs {
        return Err(AdmissionConfigError::AbsenceWindowReachesTtl);
    }
    if cfg.admission_reconcile_commit_grace_secs >= cfg.admission_slot_ttl_secs {
        return Err(AdmissionConfigError::CommitGraceReachesTtl);
    }
    if cfg.admission_priority_enable && cfg.admission_priority_ttl_secs == 0 {
        return Err(AdmissionConfigError::PriorityTtlZero);
    }
    if cfg.admission_enforce {
        if cfg.admission_range_max_inflight == 0 {
            return Err(AdmissionConfigError::RangeCapZero);
        }
        if cfg.admission_agg_max_inflight == 0 {
            return Err(AdmissionConfigError::AggCapZero);
        }
        if let Some(cap) = cfg.admission_global_max_inflight {
            if cap == 0 {
                return Err(AdmissionConfigError::GlobalCapZero);
            }
        }
    }
    let range_vks = match parse_vk_hashes(entries_of(&cfg.admission_range_vk_hashes)) {
        Ok(v) => v,
        Err(s) => {
            return Err(AdmissionConfigError::RangeVkHashes(s));
        },
    };
    let agg_vks = match parse_vk_hashes(entries_of(&cfg.admission_agg_vk_hashes)) {
        Ok(v) => v,
        Err(s) => {
            return Err(AdmissionConfigError::AggVkHashes(s));
        },
    };
    let classifier = Classifier::new(range_vks, agg_vks);
    let priorities = match parse_priority_order(entries_of(&cfg.admission_priority_order)) {
        Ok(t) => t,
        Err(e) => {
            return Err(AdmissionConfigError::PriorityOrder(e));
        },
    };
    Ok(
        AdmissionController::new(
            classifier,
            cfg.admission_range_max_inflight,
            cfg.admission_agg_max_inflight,
            cfg.admission_global_max_inflight,
            cfg.admission_enforce,
            Duration::from_secs(cfg.admission_slot_ttl_secs),
            priorities,
            cfg.admission_priority_enable,
            Duration::from_secs(cfg.admission_priority_ttl_secs),
        ).with_commit_grace(Duration::from_secs(cfg.admission_reconcile_commit_grace_secs)),
    )
}

/// How long absence is observed before a slot is released.
fn absence_window(observations: u32, reap_period_secs: u64) -> (w: u64)
    requires
        reap_period_secs <= MAX_TTL_SECS,
    ensures
        w == observations * reap_period_secs,
{
    assert(observations * reap_period_secs <= 0xffff_ffff * 86_400) by (nonlinear_arith)
        requires
            observations <= 0xffff_ffff,
            reap_period_secs <= 86_400,
    ;
    (observations as u64) * reap_period_secs
}

/// What the settings of an accepted gate promise: the reaper sweeps inside the
/// TTL, queries fit a period, absence and grace resolve before the backstop,
/// a single absent reply never releases a slot, and no cap sheds everything.
pub proof fn law_accepted_settings(cfg: Config)
    requires
        admission_fault(cfg) is None,
    ensures
        0 < cfg.admission_reap_period_secs < cfg.admission_slot_ttl_secs <= MAX_TTL_SECS,
        0 < cfg.admission_reconcile_fetch_timeout_secs <= cfg.admission_reap_period_secs,
        2 <= cfg.admission_reconcile_absent_observations,
        cfg.admission_reconcile_absent_observations * cfg.admission_reap_period_secs
            < cfg.admission_slot_ttl_secs,
        cfg.admission_reconcile_commit_grace_secs < cfg.admission_slot_ttl_secs,
        cfg.admission_priority_enable ==> cfg.admission_priority_ttl_secs > 0,
        cfg.admission_enforce ==> cfg.admission_range_max_inflight > 0
            && cfg.admission_agg_max_inflight > 0 && (cfg.admission_global_max_inflight matches Some(
            n,
        ) ==> n > 0),
{
}

/// The default settings are accepted.
pub proof fn law_default_settings_accepted(cfg: Config)
    requires
        cfg.is_default(),
    ensures
        admission_fault(cfg) is None,
{
    assert(vk_list(Seq::empty()) is Ok);
    assert(rank_list(Seq::empty()) is Ok);
}

/// Where registered programs are kept.
pub enum ProgramStoreChoice {
    /// In process memory: lost on restart.
    Memory,
    /// In a directory.
    Fs(String),
}

/// Why the program-store settings are refused.
#[derive(Debug)]
pub enum ProgramStoreError {
    /// The `fs` store needs a directory.
    MissingDir,
    /// There is no such store.
    Unknown(String),
}

/// Chooses the program store from the settings.
pub fn build_program_store(cfg: &Config) -> (r: Result<ProgramStoreChoice, ProgramStoreError>)
    ensures
        match r {
            Ok(ProgramStoreChoice::Memory) => cfg.program_store@ == "memory"@,
            Ok(ProgramStoreChoice::Fs(dir)) => cfg.program_store@ == "fs"@
                && cfg.program_store@ != "memory"@ && cfg.program_store_dir == Some(dir),
            Err(ProgramStoreError::MissingDir) => cfg.program_store@ == "fs"@
                && cfg.program_store@ != "memory"@ && cfg.program_store_dir is None,
            Err(ProgramStoreError::Unknown(name)) => cfg.program_store@ != "memory"@
                && cfg.program_store@ != "fs"@ && name@ == cfg.program_store@,
        },
{
    if same_text(cfg.program_store.as_str(), "memory") {
        Ok(ProgramStoreChoice::Memory)
    } else if same_text(cfg.program_store.as_str(), "fs") {
        match &cfg.program_store_dir {
            Some(dir) => Ok(ProgramStoreChoice::Fs(dir.clone())),
            None => Err(ProgramStoreError::MissingDir),
        }
    } else {
        Err(ProgramStoreError::Unknown(cfg.program_store.clone()))
    }
}

/// Who may send signed requests.
pub struct Auth {
    pub mode: AuthMode,
    pub allowlist: Vec<Vec<u8>>,
}

/// Why the authentication settings are refused.
#[derive(Debug)]
pub enum AuthConfigError {
    /// The allowlist could not be read.
    Allowlist(String),
    /// The allowlist mode needs addresses.
    EmptyAllowlist,
}

/// Builds the authentication policy from the settings and what reading the
/// allowlist gave, if one is set.
pub fn build_auth(cfg: &Config, parsed: Result<Vec<Vec<u8>>, String>) -> (r: Result<
    Auth,
    AuthConfigError,
>)
    ensures
        match r {
            Ok(auth) => {
                &&& auth.mode == cfg.auth_mode
                &&& match cfg.auth_allowlist {
                    Some(_) => parsed == Ok::<Vec<Vec<u8>>, String>(auth.allowlist),
                    None => auth.allowlist@.len() == 0,
                }
                &&& auth.mode == AuthMode::Allowlist ==> auth.allowlist@.len() > 0
            },
            Err(AuthConfigError::Allowlist(e)) => cfg.auth_allowlist is Some && parsed == Err::<
                Vec<Vec<u8>>,
                String,
            >(e),
            Err(AuthConfigError::EmptyAllowlist) => cfg.auth_mode == AuthMode::Allowlist && (
            cfg.auth_allowlist is None || (parsed matches Ok(v) && v@.len() == 0)),
        },
{
    let allowlist = match &cfg.auth_allowlist {
        Some(_) => match parsed {
            Ok(v) => v,
            Err(e) => {
                return Err(AuthConfigError::Allowlist(e));
            },
        },
        None => Vec::new(),
    };
    if cfg.auth_mode == AuthMode::Allowlist && allowlist.len() == 0 {
        return Err(AuthConfigError::EmptyAllowlist);
    }
    Ok(Auth { mode: cfg.auth_mode, allowlist })
}

/// What is logged of the admission policy at startup.
#[derive(Debug, Clone, Copy)]
pub struct AdmissionLog {
    pub enforce: bool,
    pub range_cap: usize,
    pub agg_cap: usize,
    pub global_cap: Option<usize>,
    pub priority_enable: bool,
    pub ranked_proposers: usize,
    pub priority_ttl_secs: u64,
    /// An enforcing gate has a pool cap of zero: that pool sheds everything.
    pub warn_zero_cap: bool,
    /// Priority is on but only observed, since the controller does not enforce.
    pub warn_observed_only: bool,
    /// Priority is on but proposers cannot be told apart.
    pub warn_unauthenticated: bool,
}

/// What to log of the effective admission policy, and which footguns to warn
/// of.
pub fn log_admission_config(cfg: &Config) -> (l: AdmissionLog)
    ensures
        l.enforce == cfg.admission_enforce,
        l.range_cap == cfg.admission_range_max_inflight,
        l.agg_cap == cfg.admission_agg_max_inflight,
        l.global_cap == cfg.admission_global_max_inflight,
        l.priority_enable == cfg.admission_priority_enable,
        l.ranked_proposers == list_texts(cfg.admission_priority_order).len(),
        l.priority_ttl_secs == cfg.admission_priority_ttl_secs,
        l.warn_zero_cap == (cfg.admission_enforce && (cfg.admission_range_max_inflight == 0
            || cfg.admission_agg_max_inflight == 0)),
        l.warn_observed_only == (cfg.admission_priority_enable && !cfg.admission_enforce),
        l.warn_unauthenticated == (cfg.admission_priority_enable && cfg.auth_mode
            == AuthMode::Open),
{
    AdmissionLog {
        enforce: cfg.admission_enforce,
        range_cap: cfg.admission_range_max_inflight,
        agg_cap: cfg.admission_agg_max_inflight,
        global_cap: cfg.admission_global_max_inflight,
        priority_enable: cfg.admission_priority_enable,
        ranked_proposers: match &cfg.admission_priority_order {
            Some(v) => v.len(),
            None => 0,
        },
        priority_ttl_secs: cfg.admission_priority_ttl_secs,
        warn_zero_cap: cfg.admission_enforce && (cfg.admission_range_max_inflight == 0
            || cfg.admission_agg_max_inflight == 0),
        warn_observed_only: cfg.admission_priority_enable && !cfg.admission_enforce,
        warn_unauthenticated: cfg.admission_priority_enable && cfg.auth_mode == AuthMode::Open,
    }
}

/// `alloy_primitives::U256::MAX.to_string()`: the largest 256-bit number in
/// decimal.
#[verifier::external_body]
fn largest_balance() -> (s: String)
    ensures
        s@
            == "115792089237316195423570985008687907853269984665640564039457584007913129639935"@,
{
    alloy_primitives::U256::MAX.to_string()
}

/// The balance reported for any address: the one that is set, or the largest
/// 256-bit number.
pub fn balance_amount(cfg: &Config) -> (s: String)
    ensures
        s@ == match cfg.balance_amount {
            Some(b) => b@,
            None =>
                "115792089237316195423570985008687907853269984665640564039457584007913129639935"@,
        },
{
    match &cfg.balance_amount {
        Some(b) => b.clone(),
        None => largest_balance(),
    }
}

/// Connections per node when none are set.
pub const DEFAULT_POOL_SIZE: usize = 16;

/// The nodes that a comma-separated list names.
pub fn node_list(raw: &str) -> (nodes: Vec<String>)
    ensures
        views(nodes@) == split_by(raw@, ','),
{
    split_text(raw, ',')
}

/// The connections per node that a raw setting gives: the number that it
/// writes, else the default.
pub fn pool_size(raw: Option<String>) -> (n: usize)
    ensures
        n == match raw {
            Some(s) => match unsigned_number(s@, usize::MAX as nat) {
                Some(v) => v,
                None => DEFAULT_POOL_SIZE as nat,
            },
            None => DEFAULT_POOL_SIZE as nat,
        },
        raw is None ==> n == 16,
        raw matches Some(s) && unsigned_number(s@, usize::MAX as nat) is None ==> n == 16,
{
    match raw {
        Some(s) => {
            let chars = chars_of(s.as_str());
            match read_unsigned(chars.as_slice(), usize::MAX as u64) {
                Some(v) => v as usize,
                None => DEFAULT_POOL_SIZE,
            }
        },
        None => DEFAULT_POOL_SIZE,
    }
}

} // verus!
