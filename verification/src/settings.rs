//! What settings mean, said of the texts and numbers that an operator writes.
use vstd::prelude::*;

use crate::config::Config;
use crate::hexadecimal::{hex_bytes, hex_text, is_hex, law_hex_digits, law_hex_round_trip};
use crate::setup::{admission_fault, configured_gate, list_texts, order_entry, rank_list, vk_list,
    AdmissionConfigFault, OrderFault};
use crate::text::{decimal, find_char, law_decimal_reads_back, law_strip, law_trim_keeps,
    law_white_ascii, lemma_decimal, lemma_find_char, lemma_find_char_is, trimmed, unsigned_number,
    without_0x};

verus! {

/// The controller that settings describe has their caps, each for its own pool,
/// their limits and their spans, and holds nothing yet.
pub proof fn law_configured_gate(cfg: Config)
    ensures
        ({
            let v = configured_gate(cfg);
            &&& v.caps.range == cfg.admission_range_max_inflight
            &&& v.caps.agg == cfg.admission_agg_max_inflight
            &&& v.global_cap == cfg.admission_global_max_inflight
            &&& v.enforce == cfg.admission_enforce
            &&& v.ttl.secs == cfg.admission_slot_ttl_secs && v.ttl.subsec_nanos == 0
            &&& v.commit_grace.secs == cfg.admission_reconcile_commit_grace_secs
            &&& v.commit_grace.subsec_nanos == 0
            &&& v.priority_enable == cfg.admission_priority_enable
            &&& v.priority_ttl.secs == cfg.admission_priority_ttl_secs
            &&& v.priority_ttl.subsec_nanos == 0
            &&& v.counts.range == 0 && v.counts.agg == 0
            &&& forall|id: Seq<char>| !#[trigger] v.slots.contains_key(id)
            &&& forall|key: (crate::pool::PoolId, Seq<u8>)| !#[trigger] v.demand.contains_key(key)
            &&& v.metrics is None
        }),
{
}

/// The controller that settings describe gives a key hash the pool under which
/// the settings list it, and knows a proposer's rank from them.
pub proof fn law_configured_lists(
    cfg: Config,
    range: Seq<Seq<u8>>,
    agg: Seq<Seq<u8>>,
    ranks: Map<Seq<u8>, u32>,
)
    requires
        vk_list(list_texts(cfg.admission_range_vk_hashes)) == Ok::<Seq<Seq<u8>>, Seq<char>>(range),
        vk_list(list_texts(cfg.admission_agg_vk_hashes)) == Ok::<Seq<Seq<u8>>, Seq<char>>(agg),
        rank_list(list_texts(cfg.admission_priority_order)) == Ok::<Map<Seq<u8>, u32>, OrderFault>(
            ranks,
        ),
    ensures
        forall|k: Seq<u8>| #[trigger]
            configured_gate(cfg).classifier.range_vks.contains(k) <==> range.contains(k),
        forall|k: Seq<u8>| #[trigger]
            configured_gate(cfg).classifier.agg_vks.contains(k) <==> agg.contains(k),
        configured_gate(cfg).ranks == ranks,
{
}

/// Settings are accepted exactly if the reaper sweeps inside a TTL of at most
/// a day, queries fit a period, absence is seen twice at least and resolves
/// before the backstop, grace does too, priority has a positive TTL, no cap of
/// an enforcing gate is zero, and every list can be read.
pub proof fn law_accepted_exactly(cfg: Config)
    ensures
        admission_fault(cfg) is None <==> {
            &&& 0 < cfg.admission_reap_period_secs
            &&& 0 < cfg.admission_reconcile_fetch_timeout_secs
            &&& cfg.admission_reconcile_fetch_timeout_secs <= cfg.admission_reap_period_secs
            &&& cfg.admission_reap_period_secs < cfg.admission_slot_ttl_secs
            &&& cfg.admission_slot_ttl_secs <= 86_400
            &&& 2 <= cfg.admission_reconcile_absent_observations
            &&& cfg.admission_reconcile_absent_observations * cfg.admission_reap_period_secs
                < cfg.admission_slot_ttl_secs
            &&& cfg.admission_reconcile_commit_grace_secs < cfg.admission_slot_ttl_secs
            &&& cfg.admission_priority_enable ==> 0 < cfg.admission_priority_ttl_secs
            &&& cfg.admission_enforce ==> {
                &&& 0 < cfg.admission_range_max_inflight
                &&& 0 < cfg.admission_agg_max_inflight
                &&& cfg.admission_global_max_inflight matches Some(n) ==> 0 < n
            }
            &&& vk_list(list_texts(cfg.admission_range_vk_hashes)) is Ok
            &&& vk_list(list_texts(cfg.admission_agg_vk_hashes)) is Ok
            &&& rank_list(list_texts(cfg.admission_priority_order)) is Ok
        },
{
}

/// Settings are refused for a reason that they give.
pub proof fn law_refusal_is_justified(cfg: Config)
    ensures
        match admission_fault(cfg) {
            None => true,
            Some(AdmissionConfigFault::ReapPeriodZero) => cfg.admission_reap_period_secs == 0,
            Some(AdmissionConfigFault::SlotTtlZero) => cfg.admission_slot_ttl_secs == 0,
            Some(AdmissionConfigFault::FetchTimeoutZero) =>
                cfg.admission_reconcile_fetch_timeout_secs == 0,
            Some(AdmissionConfigFault::FetchTimeoutAboveReapPeriod) =>
                cfg.admission_reconcile_fetch_timeout_secs > cfg.admission_reap_period_secs,
            Some(AdmissionConfigFault::ReapPeriodNotBelowTtl) => cfg.admission_reap_period_secs
                >= cfg.admission_slot_ttl_secs,
            Some(AdmissionConfigFault::TtlTooLong) => cfg.admission_slot_ttl_secs > 86_400,
            Some(AdmissionConfigFault::AbsentObservationsBelowTwo) =>
                cfg.admission_reconcile_absent_observations < 2,
            Some(AdmissionConfigFault::AbsenceWindowReachesTtl) =>
                cfg.admission_reconcile_absent_observations * cfg.admission_reap_period_secs
                    >= cfg.admission_slot_ttl_secs,
            Some(AdmissionConfigFault::CommitGraceReachesTtl) =>
                cfg.admission_reconcile_commit_grace_secs >= cfg.admission_slot_ttl_secs,
            Some(AdmissionConfigFault::PriorityTtlZero) => cfg.admission_priority_enable
                && cfg.admission_priority_ttl_secs == 0,
            Some(AdmissionConfigFault::RangeCapZero) => cfg.admission_enforce
                && cfg.admission_range_max_inflight == 0,
            Some(AdmissionConfigFault::AggCapZero) => cfg.admission_enforce
                && cfg.admission_agg_max_inflight == 0,
            Some(AdmissionConfigFault::GlobalCapZero) => cfg.admission_enforce
                && cfg.admission_global_max_inflight == Some(0usize),
            Some(AdmissionConfigFault::RangeVkHashes(s)) => vk_list(
                list_texts(cfg.admission_range_vk_hashes),
            ) == Err::<Seq<Seq<u8>>, Seq<char>>(s),
            Some(AdmissionConfigFault::AggVkHashes(s)) => vk_list(
                list_texts(cfg.admission_agg_vk_hashes),
            ) == Err::<Seq<Seq<u8>>, Seq<char>>(s),
            Some(AdmissionConfigFault::PriorityOrder(e)) => rank_list(
                list_texts(cfg.admission_priority_order),
            ) == Err::<Map<Seq<u8>, u32>, OrderFault>(e),
        },
{
}

/// A text in hex, with or without a marker before it, loses its marker only.
proof fn lemma_hex_unmarked(b: Seq<u8>)
    ensures
        without_0x(hex_text(b)) == hex_text(b),
        without_0x(seq!['0', 'x'] + hex_text(b)) == hex_text(b),
{
    let s = hex_text(b);
    if s.len() >= 2 {
        law_hex_digits(b, 0);
        let zero: int = 0;
        assert(s[1] == hex_text(b)[2 * zero + 1]);
    }
    law_strip(s);
}

/// Texts in hex begin and end with digits, so there is nothing to trim.
proof fn lemma_hex_trimmed(b: Seq<u8>)
    ensures
        trimmed(hex_text(b)) == hex_text(b),
        trimmed(seq!['0', 'x'] + hex_text(b)) == seq!['0', 'x'] + hex_text(b),
        forall|i: int| 0 <= i < hex_text(b).len() ==> #[trigger] hex_text(b)[i] != ':',
{
    let s = hex_text(b);
    let t = seq!['0', 'x'] + s;
    assert forall|i: int| 0 <= i < s.len() implies 48 <= #[trigger] s[i] as int && s[i] as int
        <= 102 && s[i] != ':' by {
        law_hex_digits(b, i / 2);
        assert(i == 2 * (i / 2) || i == 2 * (i / 2) + 1);
    }
    if s.len() > 0 {
        law_white_ascii(s[0]);
        law_white_ascii(s.last());
        assert(t.last() == s.last());
    }
    law_white_ascii('0');
    law_white_ascii('x');
    law_trim_keeps(s);
    law_trim_keeps(t);
}

/// `text` lists the key hash `key`: in hex, with or without `0x`.
pub open spec fn writes_key(text: Seq<char>, key: Seq<u8>) -> bool {
    key.len() > 0 && (text == hex_text(key) || text == seq!['0', 'x'] + hex_text(key))
}

/// Key hashes that are listed in hex are read back, all of them and in order,
/// whitespace around them aside.
pub proof fn law_vk_list_reads_back(entries: Seq<Seq<char>>, keys: Seq<Seq<u8>>)
    requires
        entries.len() == keys.len(),
        forall|i: int| 0 <= i < keys.len() ==> writes_key(trimmed(entries[i]), #[trigger] keys[i]),
    ensures
        vk_list(entries) == Ok::<Seq<Seq<u8>>, Seq<char>>(keys),
    decreases entries.len(),
{
    if entries.len() > 0 {
        let n = entries.len() - 1;
        assert forall|i: int| 0 <= i < n implies writes_key(
            trimmed(entries.drop_last()[i]),
            #[trigger] keys.drop_last()[i],
        ) by {
            assert(writes_key(trimmed(entries[i]), keys[i]));
        }
        law_vk_list_reads_back(entries.drop_last(), keys.drop_last());
        assert(writes_key(trimmed(entries[n]), keys[n]));
        lemma_hex_unmarked(keys[n]);
        law_hex_round_trip(keys[n]);
        assert(keys.drop_last().push(keys[n]) =~= keys);
    } else {
        assert(keys =~= Seq::empty());
    }
}

/// A trimmed entry that is neither blank nor hex.
pub open spec fn bad_key(text: Seq<char>) -> bool {
    text.len() > 0 && !is_hex(without_0x(text))
}

/// A list of key hashes is refused exactly if an entry is neither blank nor
/// hex, and then for the first such entry.
pub proof fn law_vk_list_refuses(entries: Seq<Seq<char>>)
    ensures
        vk_list(entries) is Err <==> exists|i: int|
            0 <= i < entries.len() && bad_key(trimmed(#[trigger] entries[i])),
        forall|i: int|
            0 <= i < entries.len() && bad_key(trimmed(#[trigger] entries[i])) && (forall|j: int|
                0 <= j < i ==> !bad_key(trimmed(#[trigger] entries[j]))) ==> vk_list(entries)
                == Err::<Seq<Seq<u8>>, Seq<char>>(trimmed(entries[i])),
    decreases entries.len(),
{
    if entries.len() > 0 {
        let n = entries.len() - 1;
        let rest = entries.drop_last();
        law_vk_list_refuses(rest);
        assert(forall|i: int| 0 <= i < n ==> #[trigger] rest[i] == entries[i]);
        assert(entries[n] == entries.last());
        if vk_list(rest) is Err {
            let i = choose|i: int| 0 <= i < rest.len() && bad_key(trimmed(#[trigger] rest[i]));
            assert(bad_key(trimmed(entries[i])));
        } else {
            assert forall|i: int| 0 <= i < n implies !bad_key(trimmed(#[trigger] entries[i])) by {
                assert(!bad_key(trimmed(rest[i])));
            }
        }
        assert forall|i: int|
            0 <= i < entries.len() && bad_key(trimmed(#[trigger] entries[i])) && (forall|j: int|
                0 <= j < i ==> !bad_key(trimmed(#[trigger] entries[j]))) implies vk_list(entries)
            == Err::<Seq<Seq<u8>>, Seq<char>>(trimmed(entries[i])) by {
            if i < n {
                assert forall|j: int| 0 <= j < i implies !bad_key(trimmed(#[trigger] rest[j])) by {
                    assert(!bad_key(trimmed(entries[j])));
                }
                assert(bad_key(trimmed(rest[i])));
            }
        }
    }
}

/// Blank entries of a list say nothing: without one, the list reads the same.
pub proof fn law_blank_key_is_skipped(a: Seq<Seq<char>>, blank: Seq<char>, b: Seq<Seq<char>>)
    requires
        trimmed(blank).len() == 0,
    ensures
        vk_list(a.push(blank) + b) == vk_list(a + b),
    decreases b.len(),
{
    if b.len() == 0 {
        assert(a.push(blank) + b =~= a.push(blank));
        assert(a + b =~= a);
        assert(a.push(blank).drop_last() =~= a);
    } else {
        law_blank_key_is_skipped(a, blank, b.drop_last());
        assert((a.push(blank) + b).drop_last() =~= a.push(blank) + b.drop_last());
        assert((a + b).drop_last() =~= a + b.drop_last());
    }
}

/// An entry of a priority order is an address and a rank with the first `:`
/// between them. It is read exactly if the address is twenty bytes in hex, with
/// or without `0x`, and the rank a number below 2^32, blanks around them aside.
pub proof fn law_order_entry(a: Seq<char>, r: Seq<char>)
    requires
        forall|i: int| 0 <= i < a.len() ==> #[trigger] a[i] != ':',
    ensures
        ({
            let s = a + seq![':'] + r;
            let addr = without_0x(trimmed(a));
            let rank = unsigned_number(trimmed(r), 0xffff_ffff);
            &&& !is_hex(addr) ==> order_entry(s) == Err::<(Seq<u8>, u32), OrderFault>(
                OrderFault::InvalidAddress(a),
            )
            &&& is_hex(addr) && addr.len() != 40 ==> order_entry(s) == Err::<
                (Seq<u8>, u32),
                OrderFault,
            >(OrderFault::AddressLength(s))
            &&& is_hex(addr) && addr.len() == 40 && rank is None ==> order_entry(s) == Err::<
                (Seq<u8>, u32),
                OrderFault,
            >(OrderFault::InvalidRank(s))
            &&& is_hex(addr) && addr.len() == 40 && rank is Some ==> {
                &&& order_entry(s) matches Ok((b, n))
                &&& b == hex_bytes(addr)
                &&& n == rank->0
            }
            &&& order_entry(a) == Err::<(Seq<u8>, u32), OrderFault>(OrderFault::MissingRank(a))
        }),
{
    let s = a + seq![':'] + r;
    let n = a.len() as int;
    assert forall|i: int| 0 <= i < n implies #[trigger] s[i] != ':' by {
        assert(s[i] == a[i]);
    }
    lemma_find_char_is(s, ':', n);
    assert(s.take(n) =~= a);
    assert(s.skip(n + 1) =~= r);
    lemma_find_char(a, ':');
    assert(find_char(a, ':') >= a.len());
    if unsigned_number(trimmed(r), 0xffff_ffff) is Some {
        crate::text::law_numbers_are_digits(trimmed(r), 0xffff_ffff);
    }
}

/// An address without a `:` in it and a rank in decimal are read back.
proof fn lemma_order_reads_back(a: Seq<char>, addr: Seq<u8>, rank: u32)
    requires
        addr.len() == 20,
        forall|i: int| 0 <= i < a.len() ==> #[trigger] a[i] != ':',
        without_0x(trimmed(a)) == hex_text(addr),
    ensures
        order_entry(a + seq![':'] + decimal(rank as nat)) == Ok::<(Seq<u8>, u32), OrderFault>(
            (addr, rank),
        ),
{
    let d = decimal(rank as nat);
    assert(trimmed(d) == d && unsigned_number(d, 0xffff_ffff) == Some(rank as nat)) by {
        lemma_decimal(rank as nat);
        law_decimal_reads_back(rank as nat, 0xffff_ffff);
        assert(crate::text::is_digit(d[0]) && crate::text::is_digit(d.last()));
        law_white_ascii(d[0]);
        law_white_ascii(d.last());
        law_trim_keeps(d);
    }
    law_hex_round_trip(addr);
    law_order_entry(a, d);
}

/// A proposer and its rank, written down, are read back.
pub proof fn law_order_entry_reads_back(addr: Seq<u8>, rank: u32)
    requires
        addr.len() == 20,
    ensures
        order_entry(seq!['0', 'x'] + hex_text(addr) + seq![':'] + decimal(rank as nat)) == Ok::<
            (Seq<u8>, u32),
            OrderFault,
        >((addr, rank)),
        order_entry(hex_text(addr) + seq![':'] + decimal(rank as nat)) == Ok::<
            (Seq<u8>, u32),
            OrderFault,
        >((addr, rank)),
{
    lemma_hex_unmarked(addr);
    lemma_hex_trimmed(addr);
    let marked = seq!['0', 'x'] + hex_text(addr);
    assert forall|i: int| 0 <= i < marked.len() implies #[trigger] marked[i] != ':' by {
        if i >= 2 {
            assert(marked[i] == hex_text(addr)[i - 2]);
        }
    }
    lemma_order_reads_back(hex_text(addr), addr, rank);
    lemma_order_reads_back(marked, addr, rank);
}

/// The entry says that `addr` has `rank`.
pub open spec fn ranks_as(entry: Seq<char>, addr: Seq<u8>, rank: u32) -> bool {
    trimmed(entry).len() > 0 && order_entry(trimmed(entry)) == Ok::<(Seq<u8>, u32), OrderFault>(
        (addr, rank),
    )
}

/// A priority order that is accepted gives every listed proposer the rank of
/// its entry, and ranks nobody else; no proposer is listed twice.
pub proof fn law_rank_list(entries: Seq<Seq<char>>, m: Map<Seq<u8>, u32>)
    requires
        rank_list(entries) == Ok::<Map<Seq<u8>, u32>, OrderFault>(m),
    ensures
        forall|i: int|
            0 <= i < entries.len() ==> trimmed(#[trigger] entries[i]).len() == 0 || order_entry(
                trimmed(entries[i]),
            ) is Ok,
        forall|i: int, addr: Seq<u8>, rank: u32|
            0 <= i < entries.len() && #[trigger] ranks_as(entries[i], addr, rank)
                ==> m.contains_key(addr) && m[addr] == rank,
        forall|addr: Seq<u8>| #[trigger]
            m.contains_key(addr) ==> exists|i: int|
                0 <= i < entries.len() && ranks_as(#[trigger] entries[i], addr, m[addr]),
        forall|i: int, j: int, addr: Seq<u8>, p: u32, q: u32|
            0 <= i < j < entries.len() && #[trigger] ranks_as(entries[i], addr, p)
                ==> !#[trigger] ranks_as(entries[j], addr, q),
    decreases entries.len(),
{
    if entries.len() > 0 {
        let n = entries.len() - 1;
        let rest = entries.drop_last();
        let before = rank_list(rest)->Ok_0;
        law_rank_list(rest, before);
        assert(forall|i: int| 0 <= i < n ==> #[trigger] rest[i] == entries[i]);
        assert(entries[n] == entries.last());
        assert forall|i: int, addr: Seq<u8>, rank: u32|
            0 <= i < entries.len() && #[trigger] ranks_as(
                entries[i],
                addr,
                rank,
            ) implies m.contains_key(addr) && m[addr] == rank by {
            if i < n {
                assert(ranks_as(rest[i], addr, rank));
            }
        }
        assert forall|addr: Seq<u8>| #[trigger] m.contains_key(addr) implies exists|i: int|
            0 <= i < entries.len() && ranks_as(#[trigger] entries[i], addr, m[addr]) by {
            if before.contains_key(addr) {
                let i = choose|i: int|
                    0 <= i < rest.len() && ranks_as(#[trigger] rest[i], addr, before[addr]);
                assert(ranks_as(entries[i], addr, m[addr]));
            } else {
                assert(ranks_as(entries[n], addr, m[addr]));
            }
        }
        assert forall|i: int, j: int, addr: Seq<u8>, p: u32, q: u32|
            0 <= i < j < entries.len() && #[trigger] ranks_as(
                entries[i],
                addr,
                p,
            ) implies !#[trigger] ranks_as(entries[j], addr, q) by {
            assert(ranks_as(rest[i], addr, p));
            if j < n {
                assert(!ranks_as(rest[j], addr, q));
            }
        }
        assert forall|i: int| 0 <= i < entries.len() implies trimmed(#[trigger] entries[i]).len()
            == 0 || order_entry(trimmed(entries[i])) is Ok by {
            if i < n {
                assert(trimmed(rest[i]).len() == 0 || order_entry(trimmed(rest[i])) is Ok);
            }
        }
    }
}

/// A priority order is refused for the first entry that cannot be read, or for
/// the first proposer that was listed before.
pub proof fn law_rank_list_refuses(entries: Seq<Seq<char>>, e: OrderFault) -> (at: int)
    requires
        rank_list(entries) == Err::<Map<Seq<u8>, u32>, OrderFault>(e),
    ensures
        0 <= at < entries.len(),
        rank_list(entries.take(at)) is Ok,
        trimmed(entries[at]).len() > 0,
        order_entry(trimmed(entries[at])) == Err::<(Seq<u8>, u32), OrderFault>(e) || (exists|
            j: int,
            addr: Seq<u8>,
            p: u32,
            q: u32,
        |
            0 <= j < at && #[trigger] ranks_as(entries[j], addr, p) && #[trigger] ranks_as(
                entries[at],
                addr,
                q,
            ) && e == OrderFault::Duplicate(addr)),
    decreases entries.len(),
{
    let n = entries.len() - 1;
    let rest = entries.drop_last();
    if rank_list(rest) is Err {
        let at = law_rank_list_refuses(rest, e);
        assert(rest.take(at) =~= entries.take(at));
        assert(rest[at] == entries[at]);
        if !(order_entry(trimmed(entries[at])) == Err::<(Seq<u8>, u32), OrderFault>(e)) {
            let (j, addr, p, q) = choose|j: int, addr: Seq<u8>, p: u32, q: u32|
                0 <= j < at && #[trigger] ranks_as(rest[j], addr, p) && #[trigger] ranks_as(
                    rest[at],
                    addr,
                    q,
                ) && e == OrderFault::Duplicate(addr);
            assert(ranks_as(entries[j], addr, p) && ranks_as(entries[at], addr, q));
        }
        at
    } else {
        assert(entries.take(n) =~= rest);
        let m = rank_list(rest)->Ok_0;
        if order_entry(trimmed(entries[n])) is Ok {
            let (addr, q) = order_entry(trimmed(entries[n]))->Ok_0;
            law_rank_list(rest, m);
            let j = choose|j: int|
                0 <= j < rest.len() && ranks_as(#[trigger] rest[j], addr, m[addr]);
            assert(ranks_as(entries[j], addr, m[addr]));
            assert(ranks_as(entries[n], addr, q));
        }
        n
    }
}

/// Blank entries of a priority order say nothing.
pub proof fn law_blank_rank_is_skipped(a: Seq<Seq<char>>, blank: Seq<char>, b: Seq<Seq<char>>)
    requires
        trimmed(blank).len() == 0,
    ensures
        rank_list(a.push(blank) + b) == rank_list(a + b),
    decreases b.len(),
{
    if b.len() == 0 {
        assert(a.push(blank) + b =~= a.push(blank));
        assert(a + b =~= a);
        assert(a.push(blank).drop_last() =~= a);
    } else {
        law_blank_rank_is_skipped(a, blank, b.drop_last());
        assert((a.push(blank) + b).drop_last() =~= a.push(blank) + b.drop_last());
        assert((a + b).drop_last() =~= a + b.drop_last());
    }
}

/// With nothing set the gateway only observes: it keeps one range and two
/// aggregation proofs in flight as its measure, without a global cap and without
/// priority, reaps every minute what gave no sign of life for an hour, and needs
/// three absences after a minute of grace.
pub proof fn law_default_settings(cfg: Config)
    requires
        cfg.is_default(),
    ensures
        ({
            let v = configured_gate(cfg);
            &&& !v.enforce
            &&& v.caps.range == 1 && v.caps.agg == 2
            &&& v.global_cap is None
            &&& v.ttl.secs == 3600
            &&& v.commit_grace.secs == 60
            &&& !v.priority_enable
            &&& v.priority_ttl.secs == 90
        }),
        cfg.admission_reap_period_secs == 60,
        cfg.admission_reconcile_absent_observations == 3,
        cfg.admission_reconcile_fetch_timeout_secs == 10,
        cfg.s3_concurrency == 32,
        cfg.redis_pool_max_size == 16,
        cfg.grpc_addr@ == "0.0.0.0:50061"@,
        cfg.http_addr@ == "0.0.0.0:8081"@,
        cfg.metrics_addr@ == "127.0.0.1:9091"@,
        cfg.artifact_store@ == "s3"@,
        cfg.program_store@ == "memory"@,
        cfg.auth_mode == crate::config::AuthMode::Open,
{
}

} // verus!
