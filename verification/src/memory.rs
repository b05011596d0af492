//! Backpressure on uploads: how much memory a node has left for them.
use vstd::prelude::*;

use crate::text::{chars_of, decimal, field, field_of, is_digit, law_decimal_reads_back, law_field,
    law_trim_keeps, lemma_decimal, line_start, read_unsigned, stands_at, trim, trim_end, trim_start,
    trimmed, unsigned_number};
use crate::time::Duration;

verus! {

/// Conservative size of a single shard artifact.
pub const DEFAULT_SHARD_MAX_BYTES: u64 = 20 * 1024 * 1024;

/// Uploads up to this size are not gated: the number of concurrent tasks
/// bounds them.
pub const ADMISSION_BYPASS_BYTES: u64 = DEFAULT_SHARD_MAX_BYTES / 10;

/// Permits of a node whose memory limit is unknown, so that nothing wedges.
pub const MIN_PERMITS_PER_NODE: usize = 4;

/// Longest wait for a node's memory report, in seconds.
pub const MAXMEMORY_QUERY_TIMEOUT_SECS: u64 = 5;

/// Time between two looks at a node's memory while waiting, in milliseconds.
pub const ADMISSION_POLL_INTERVAL_MILLIS: u64 = 250;

/// Longest wait for memory, in seconds.
pub const ADMISSION_MAX_WAIT_SECS: u64 = 2 * 60;

/// Shortest time between two log lines about waiting, in seconds.
pub const ADMISSION_LOG_INTERVAL_SECS: u64 = 10;

/// What a node says of its memory: used bytes and limit, each if it was given.
#[derive(Copy, Clone, PartialEq, Eq, Debug, Structural)]
pub struct MemoryInfo {
    pub used: Option<u64>,
    pub max: Option<u64>,
}

/// The number that follows `key` at the start of a line of `info`.
pub open spec fn info_number(info: Seq<char>, key: Seq<char>) -> Option<nat> {
    match field_of(info, key) {
        Some(v) => unsigned_number(trimmed(v), u64::MAX as nat),
        None => None,
    }
}

/// A number read, or none.
pub open spec fn is_number(r: Option<u64>, n: Option<nat>) -> bool {
    match r {
        Some(v) => n == Some(v as nat),
        None => n is None,
    }
}

fn read_field(info: &[char], key: &str) -> (r: Option<u64>)
    ensures
        is_number(r, info_number(info@, key@)),
{
    let key = chars_of(key);
    match field(info, key.as_slice()) {
        Some(v) => read_unsigned(trim(v), u64::MAX),
        None => None,
    }
}

/// Reads used memory and memory limit from a node's memory report. A field is
/// `None` if its line is missing or holds no number.
pub fn parse_memory_info(info: &str) -> (m: MemoryInfo)
    ensures
        is_number(m.used, info_number(info@, "used_memory:"@)),
        is_number(m.max, info_number(info@, "maxmemory:"@)),
{
    let chars = chars_of(info);
    MemoryInfo {
        used: read_field(chars.as_slice(), "used_memory:"),
        max: read_field(chars.as_slice(), "maxmemory:"),
    }
}

/// The memory limit that permits can be derived from: known and not zero.
pub fn usable_limit(query: Option<MemoryInfo>) -> (r: Option<u64>)
    ensures
        r == match query {
            Some(m) => match m.max {
                Some(v) => if v > 0 {
                    Some(v)
                } else {
                    None
                },
                None => None,
            },
            None => None,
        },
{
    match query {
        Some(m) => match m.max {
            Some(v) => {
                if v > 0 {
                    Some(v)
                } else {
                    None
                }
            },
            None => None,
        },
        None => None,
    }
}

/// The shard size that a raw override gives: a positive number, else the
/// default.
pub open spec fn shard_bytes_of(raw: Option<Seq<char>>) -> nat {
    match raw {
        Some(s) => match unsigned_number(s, u64::MAX as nat) {
            Some(v) => if v > 0 {
                v
            } else {
                DEFAULT_SHARD_MAX_BYTES as nat
            },
            None => DEFAULT_SHARD_MAX_BYTES as nat,
        },
        None => DEFAULT_SHARD_MAX_BYTES as nat,
    }
}

/// The shard size that a raw override gives.
pub fn shard_max_bytes(raw: Option<String>) -> (n: u64)
    ensures
        n == shard_bytes_of(
            match raw {
                Some(s) => Some(s@),
                None => None,
            },
        ),
        n > 0,
{
    match raw {
        Some(s) => {
            let chars = chars_of(s.as_str());
            match read_unsigned(chars.as_slice(), u64::MAX) {
                Some(v) => {
                    if v > 0 {
                        v
                    } else {
                        DEFAULT_SHARD_MAX_BYTES
                    }
                },
                None => DEFAULT_SHARD_MAX_BYTES,
            }
        },
        None => DEFAULT_SHARD_MAX_BYTES,
    }
}

/// How many worst-case shards fit the input budget of a node, but no fewer
/// than the floor. Without a budget it is the floor.
pub fn permits_for_node(input_budget: Option<u64>, max_shard_bytes: u64) -> (n: usize)
    requires
        max_shard_bytes > 0,
    ensures
        n == match input_budget {
            Some(b) => if (b / max_shard_bytes) as usize > MIN_PERMITS_PER_NODE {
                (b / max_shard_bytes) as usize
            } else {
                MIN_PERMITS_PER_NODE
            },
            None => MIN_PERMITS_PER_NODE,
        },
        n >= 4,
        input_budget is None ==> n == 4,
        input_budget matches Some(b) ==> b / max_shard_bytes <= usize::MAX ==> {
            &&& b < (n + 1) * max_shard_bytes
            &&& n > 4 ==> n * max_shard_bytes <= b
        },
{
    match input_budget {
        Some(b) => {
            let n: usize = (b / max_shard_bytes) as usize;
            proof {
                lemma_quotient(b as int, max_shard_bytes as int);
            }
            if n > MIN_PERMITS_PER_NODE {
                n
            } else {
                MIN_PERMITS_PER_NODE
            }
        },
        None => MIN_PERMITS_PER_NODE,
    }
}

/// What rounding down leaves of a quotient.
proof fn lemma_quotient(b: int, m: int)
    requires
        b >= 0,
        m > 0,
    ensures
        (b / m) * m <= b < (b / m + 1) * m,
        b / m <= 4 ==> b < 5 * m,
{
    let q = b / m;
    vstd::arithmetic::div_mod::lemma_fundamental_div_mod(b, m);
    assert(m * q == q * m && (q + 1) * m == q * m + m) by (nonlinear_arith);
    if q <= 4 {
        assert(q * m <= 4 * m) by (nonlinear_arith)
            requires
                q <= 4,
                m > 0,
        ;
    }
}

/// Whether an upload is too small to be gated.
pub fn bypasses_admission(incoming: u64) -> (b: bool)
    ensures
        b == (incoming <= ADMISSION_BYPASS_BYTES),
        b <==> incoming <= 2_097_152,
{
    incoming <= ADMISSION_BYPASS_BYTES
}

/// The bytes of uploads in flight on a node. A reservation is counted from
/// admission until its upload is done.
pub struct InFlight {
    pub bytes: u64,
}

impl InFlight {
    /// Counts an upload.
    pub fn reserve(&mut self, bytes: u64)
        ensures
            final(self).bytes == (old(self).bytes + bytes) % 0x1_0000_0000_0000_0000,
    {
        self.bytes = self.bytes.wrapping_add(bytes);
    }

    /// Takes an upload off the count.
    pub fn release(&mut self, bytes: u64)
        ensures
            final(self).bytes == (old(self).bytes - bytes) % 0x1_0000_0000_0000_0000,
    {
        self.bytes = self.bytes.wrapping_sub(bytes);
    }
}

/// Giving a reservation back leaves the count as it was.
pub proof fn law_release_undoes_reserve(before: u64, bytes: u64)
    ensures
        ((((before + bytes) % 0x1_0000_0000_0000_0000) as u64) - bytes) % 0x1_0000_0000_0000_0000
            == before,
{
    let m: int = 0x1_0000_0000_0000_0000;
    let s = (before + bytes) % m;
    assert(0 <= s < m);
    if before + bytes < m {
        assert(s == before + bytes);
    } else {
        assert(s == before + bytes - m);
    }
}

/// An upload that waits for memory.
#[derive(Copy, Clone, PartialEq, Eq, Debug, Structural)]
pub struct Waiting {
    /// It has been told to wait before.
    pub waiting: bool,
    /// When waiting was last logged, since the start.
    pub last_log: Duration,
}

impl Waiting {
    /// An upload that has not waited yet.
    pub fn new() -> (w: Self)
        ensures
            w == (Waiting { waiting: false, last_log: Duration { secs: 0, subsec_nanos: 0 } }),
    {
        Waiting { waiting: false, last_log: Duration::zero() }
    }
}

/// What an upload does next.
#[derive(Copy, Clone, PartialEq, Eq, Debug, Structural)]
pub enum AdmissionStep {
    /// Go on without a reservation: the node has no limit, or does not tell.
    Ungated,
    /// Go on without a reservation: the node could not be asked.
    FailOpen,
    /// Go on: the bytes are reserved. `resumed` after a wait.
    Reserved { resumed: bool },
    /// Give up: it has taken too long.
    GiveUp,
    /// Ask again later. `log` when it is time to say so.
    Wait { log: bool },
}

/// `a + b`, at most `u64::MAX`.
pub open spec fn capped_sum(a: int, b: int) -> int {
    if a + b > u64::MAX {
        u64::MAX as int
    } else {
        a + b
    }
}

/// The memory that a node would use with an upload of `incoming` bytes.
pub open spec fn projected(used: u64, in_flight: u64, incoming: u64) -> int {
    capped_sum(capped_sum(used as int, in_flight as int), incoming as int)
}

/// What an upload does next, given what the node says of its memory (`None`
/// when it could not be asked) and the budget for it.
pub open spec fn next_step(
    query: Option<MemoryInfo>,
    budget: u64,
    in_flight: u64,
    incoming: u64,
    elapsed: Duration,
    w: Waiting,
) -> AdmissionStep {
    match query {
        None => AdmissionStep::FailOpen,
        Some(m) => if m.used is None || m.max is None || m.max == Some(0u64) {
            AdmissionStep::Ungated
        } else if projected(m.used->0, in_flight, incoming) <= budget {
            AdmissionStep::Reserved { resumed: w.waiting }
        } else if elapsed.nanos() > ADMISSION_MAX_WAIT_SECS * 1_000_000_000 {
            AdmissionStep::GiveUp
        } else {
            AdmissionStep::Wait {
                log: !w.waiting || elapsed.nanos() - w.last_log.nanos()
                    >= ADMISSION_LOG_INTERVAL_SECS * 1_000_000_000,
            }
        },
    }
}

/// Decides what an upload of `incoming` bytes does next. `budget` is the share
/// of the node's limit that uploads may fill. Bytes are counted in flight only
/// when they are reserved.
pub fn admission_step(
    query: Option<MemoryInfo>,
    budget: u64,
    node: &mut InFlight,
    incoming: u64,
    elapsed: Duration,
    w: &mut Waiting,
) -> (step: AdmissionStep)
    ensures
        step == next_step(query, budget, old(node).bytes, incoming, elapsed, *old(w)),
        final(node).bytes == if step is Reserved {
            (old(node).bytes + incoming) % 0x1_0000_0000_0000_0000
        } else {
            old(node).bytes as int
        },
        *final(w) == match step {
            AdmissionStep::Wait { log } => Waiting {
                waiting: true,
                last_log: if log {
                    elapsed
                } else {
                    old(w).last_log
                },
            },
            _ => *old(w),
        },
{
    let m = match query {
        Some(m) => m,
        None => {
            return AdmissionStep::FailOpen;
        },
    };
    let used: u64 = match m.used {
        Some(used) => used,
        None => {
            return AdmissionStep::Ungated;
        },
    };
    let max: u64 = match m.max {
        Some(max) => max,
        None => {
            return AdmissionStep::Ungated;
        },
    };
    if max == 0 {
        return AdmissionStep::Ungated;
    }
    let sum: u64 = used.saturating_add(node.bytes).saturating_add(incoming);
    if sum <= budget {
        node.reserve(incoming);
        return AdmissionStep::Reserved { resumed: w.waiting };
    }
    let waited: i128 = elapsed.as_nanos();
    if waited > Duration::from_secs(ADMISSION_MAX_WAIT_SECS).as_nanos() {
        return AdmissionStep::GiveUp;
    }
    let log = !w.waiting || waited - w.last_log.as_nanos() >= Duration::from_secs(
        ADMISSION_LOG_INTERVAL_SECS,
    ).as_nanos();
    if log {
        w.last_log = elapsed;
    }
    w.waiting = true;
    AdmissionStep::Wait { log }
}

/// An admitted upload fits: what the node uses, what is in flight and the
/// upload itself stay within the budget.
pub proof fn law_reserved_within_budget(
    query: Option<MemoryInfo>,
    budget: u64,
    in_flight: u64,
    incoming: u64,
    elapsed: Duration,
    w: Waiting,
)
    requires
        budget < u64::MAX,
        next_step(query, budget, in_flight, incoming, elapsed, w) is Reserved,
    ensures
        query matches Some(m) && m.used matches Some(used) && used + in_flight + incoming
            <= budget,
{
}

/// On a node with a memory limit an upload goes on exactly if what the node
/// uses, what is in flight and the upload itself fit the budget. Where they do
/// not fit it waits, for two minutes at most.
pub proof fn law_upload_waits_for_room(
    used: u64,
    max: u64,
    budget: u64,
    in_flight: u64,
    incoming: u64,
    elapsed: Duration,
    w: Waiting,
)
    requires
        max > 0,
        budget < u64::MAX,
    ensures
        ({
            let step = next_step(
                Some(MemoryInfo { used: Some(used), max: Some(max) }),
                budget,
                in_flight,
                incoming,
                elapsed,
                w,
            );
            let late = elapsed.secs * 1_000_000_000 + elapsed.subsec_nanos > 120_000_000_000;
            &&& used + in_flight + incoming <= budget <==> step is Reserved
            &&& used + in_flight + incoming > budget && late ==> step is GiveUp
            &&& used + in_flight + incoming > budget && !late ==> step is Wait
            &&& step matches AdmissionStep::Reserved { resumed } ==> resumed == w.waiting
        }),
{
}

/// A budget that is not bounded holds no upload up.
pub proof fn law_boundless_budget(
    used: u64,
    max: u64,
    in_flight: u64,
    incoming: u64,
    elapsed: Duration,
    w: Waiting,
)
    requires
        max > 0,
    ensures
        next_step(
            Some(MemoryInfo { used: Some(used), max: Some(max) }),
            u64::MAX,
            in_flight,
            incoming,
            elapsed,
            w,
        ) is Reserved,
{
}

/// A node that cannot be asked, that does not tell, or that has no limit holds
/// no upload up.
pub proof fn law_unknown_memory_gates_nothing(
    m: MemoryInfo,
    budget: u64,
    in_flight: u64,
    incoming: u64,
    elapsed: Duration,
    w: Waiting,
)
    ensures
        next_step(None, budget, in_flight, incoming, elapsed, w) is FailOpen,
        m.used is None || m.max is None || m.max == Some(0u64) <==> next_step(
            Some(m),
            budget,
            in_flight,
            incoming,
            elapsed,
            w,
        ) is Ungated,
{
}

/// Waiting is told of when it begins, and then every ten seconds.
pub proof fn law_waiting_is_told(
    query: Option<MemoryInfo>,
    budget: u64,
    in_flight: u64,
    incoming: u64,
    elapsed: Duration,
    w: Waiting,
)
    ensures
        next_step(query, budget, in_flight, incoming, elapsed, w) matches AdmissionStep::Wait {
            log,
        } ==> {
            &&& !w.waiting ==> log
            &&& w.waiting ==> (log <==> (elapsed.secs - w.last_log.secs) * 1_000_000_000
                + elapsed.subsec_nanos - w.last_log.subsec_nanos >= 10_000_000_000)
        },
{
}

/// A field of a memory report is the number that follows its key, where a line
/// first starts with the key, a carriage return at its end aside.
pub proof fn law_memory_field(info: Seq<char>, key: Seq<char>, at: int, n: u64)
    requires
        key.len() > 0,
        forall|i: int| 0 <= i < key.len() ==> #[trigger] key[i] != '\n',
        line_start(info, at),
        stands_at(info, key + decimal(n as nat), at),
        forall|i: int| 0 <= i < at && #[trigger] line_start(info, i) ==> !stands_at(info, key, i),
        ({
            let end = at + key.len() + decimal(n as nat).len();
            ||| end == info.len()
            ||| info[end] == '\n'
            ||| info[end] == '\r' && (end + 1 == info.len() || info[end + 1] == '\n')
        }),
    ensures
        info_number(info, key) == Some(n as nat),
{
    let d = decimal(n as nat);
    let whole = key + d;
    let to = law_field(info, key);
    lemma_decimal(n as nat);
    law_decimal_reads_back(n as nat, u64::MAX as nat);
    assert(info.subrange(at, at + whole.len()) == whole);
    assert(info.subrange(at, at + key.len()) =~= key) by {
        assert(info.subrange(at, at + key.len()) =~= whole.subrange(0, key.len() as int));
        assert(whole.subrange(0, key.len() as int) =~= key);
    }
    assert(stands_at(info, key, at));
    assert(field_of(info, key) is Some);
    let v = field_of(info, key)->0;
    assert(info.subrange(to, to + (key + v).len()) == key + v);
    assert(info.subrange(to, to + key.len()) =~= key) by {
        assert(info.subrange(to, to + key.len()) =~= (key + v).subrange(0, key.len() as int));
        assert((key + v).subrange(0, key.len() as int) =~= key);
    }
    assert(stands_at(info, key, to));
    assert(to == at);
    let from = at + key.len();
    let end = from + d.len();
    assert forall|i: int| 0 <= i < v.len() implies #[trigger] v[i] == info[from + i] by {
        assert((key + v)[key.len() + i] == info.subrange(to, to + (key + v).len())[key.len() + i]);
    }
    assert forall|i: int| 0 <= i < d.len() implies #[trigger] d[i] == info[from + i] by {
        assert(whole[key.len() + i] == info.subrange(at, at + whole.len())[key.len() + i]);
    }
    assert(v.len() >= d.len()) by {
        if v.len() < d.len() {
            assert(is_digit(d[v.len() as int]));
            assert(info[from + v.len()] == '\n');
        }
    }
    assert(v =~= d || v =~= d.push('\r')) by {
        if v.len() > d.len() {
            assert(v[d.len() as int] == info[end]);
            assert(info[end] == '\r');
            if v.len() > d.len() + 1 {
                assert(v[d.len() as int + 1] == info[end + 1]);
            }
        }
    }
    assert(is_digit(d[0]) && is_digit(d.last()));
    law_trim_keeps(d);
    if v.len() > d.len() {
        assert(trim_start(v) == v);
        assert(v.drop_last() =~= d);
        assert(trim_end(v) == trim_end(d));
    }
}

/// A report in which no line starts with a key does not have its field.
pub proof fn law_missing_memory_field(info: Seq<char>, key: Seq<char>)
    requires
        key.len() > 0,
        forall|i: int| 0 <= i < key.len() ==> #[trigger] key[i] != '\n',
        forall|i: int| #[trigger] line_start(info, i) ==> !stands_at(info, key, i),
    ensures
        info_number(info, key) is None,
{
    let to = law_field(info, key);
    if field_of(info, key) is Some {
        let v = field_of(info, key)->0;
        assert(info.subrange(to, to + key.len()) =~= key) by {
            assert(info.subrange(to, to + key.len()) =~= info.subrange(
                to,
                to + (key + v).len(),
            ).subrange(0, key.len() as int));
            assert((key + v).subrange(0, key.len() as int) =~= key);
        }
        assert(stands_at(info, key, to));
    }
}

/// A shard size that is set is taken if it is positive; anything else, or
/// nothing, gives twenty mebibytes.
pub proof fn law_shard_size(n: nat, raw: Seq<char>)
    requires
        n <= u64::MAX,
    ensures
        shard_bytes_of(Some(decimal(n))) == if n > 0 {
            n
        } else {
            20_971_520
        },
        shard_bytes_of(None) == 20_971_520,
        unsigned_number(raw, u64::MAX as nat) is None ==> shard_bytes_of(Some(raw)) == 20_971_520,
{
    law_decimal_reads_back(n, u64::MAX as nat);
}

} // verus!
