//! What the cluster says is pending, and the reaper's tick.
use vstd::prelude::*;

use crate::admission::{is_sample, AdmissionController, PendingObservation, ReconcileReport,
    ID_SAMPLE_CAP};
use crate::classifier::ClassifierView;
use crate::gate::GateView;
use crate::policy::{length, same_admission};
use crate::pool::PoolId;
use crate::runs::{after, law_operation_takes_only, run, same_policy, within_caps, Event, Op};
use crate::slots::{views, SlotView};
use crate::tables::{copy_bytes, IdSet};
use crate::text::{chars_of, decimal, law_decimal_reads_back, read_i32, signed_number};
use crate::time::Duration;
use crate::upkeep::{law_publishing_changes_ages_only, law_reaper_takes, law_snapshot_of_a_slot};

verus! {

/// Page limit of the Pending query: the cluster's own clamp, so that a full
/// page shows. Asking for more would make a truncated reply look complete.
pub const PENDING_QUERY_LIMIT: u32 = 1000;

/// The number of gRPC's `Unimplemented` code.
pub const CODE_UNIMPLEMENTED: i32 = 12;

/// What the gateway reads of the cluster's record of a proof.
pub struct ProofRequest {
    pub id: String,
    /// Carries the proof mode as a decimal number.
    pub options_artifact_id: Option<String>,
    /// Who asked for the proof; empty when not recorded.
    pub requester: Vec<u8>,
    /// When the proof was asked for, in unix seconds; 0 when not recorded.
    pub created_at: u64,
}

/// A status of a proof request.
#[derive(Copy, Clone, PartialEq, Eq, Debug, Structural)]
pub enum ProofStatus {
    Pending,
}

/// A query for proof requests. A list that is empty and a field that is absent
/// filter nothing.
#[derive(Clone, Debug)]
pub struct PendingQuery {
    /// Only requests in one of these states.
    pub proof_status: Vec<ProofStatus>,
    /// Only requests whose execution is in one of these states.
    pub execution_status: Vec<i32>,
    /// Only requests whose deadline has not passed, in unix seconds.
    pub minimum_deadline: Option<u64>,
    /// Only requests that were handled, or that were not.
    pub handled: Option<bool>,
    pub limit: Option<u32>,
    pub offset: Option<u32>,
    /// Only requests that this scheduler took.
    pub scheduled_by: Option<String>,
}

/// The query for the proofs that occupy the cluster at `now_secs`: pending, and
/// not past their deadline. A request past its deadline is claimed by no one
/// and takes no capacity, so it must not hold a slot.
pub fn pending_query(now_secs: u64) -> (q: PendingQuery)
    ensures
        q.proof_status@ == seq![ProofStatus::Pending],
        q.execution_status@ == Seq::<i32>::empty(),
        q.minimum_deadline == Some(now_secs),
        q.handled is None,
        q.limit == Some(PENDING_QUERY_LIMIT),
        q.limit == Some(1000u32),
        q.offset is None,
        q.scheduled_by is None,
{
    let mut proof_status: Vec<ProofStatus> = Vec::new();
    proof_status.push(ProofStatus::Pending);
    PendingQuery {
        proof_status,
        execution_status: Vec::new(),
        minimum_deadline: Some(now_secs),
        handled: None,
        limit: Some(PENDING_QUERY_LIMIT),
        offset: None,
        scheduled_by: None,
    }
}

/// The ids of proof requests.
pub open spec fn request_ids(proofs: Seq<ProofRequest>) -> Seq<Seq<char>> {
    proofs.map_values(|p: ProofRequest| p.id@)
}

/// Classifies a reply: one that fills the page may be truncated, a shorter one
/// is the whole live set.
pub fn classify_pending(proofs: Vec<ProofRequest>, limit: usize) -> (obs: PendingObservation)
    ensures
        obs.wf(),
        match obs {
            PendingObservation::Partial(ids) => proofs@.len() >= limit && ids@ == request_ids(
                proofs@,
            ).to_set(),
            PendingObservation::Complete(ids) => proofs@.len() < limit && ids@ == request_ids(
                proofs@,
            ).to_set(),
            PendingObservation::Gap => false,
        },
{
    let truncated = proofs.len() >= limit;
    let mut list: Vec<String> = Vec::new();
    let mut i: usize = 0;
    while i < proofs.len()
        invariant
            i <= proofs@.len(),
            views(list@) == request_ids(proofs@).take(i as int),
        decreases proofs@.len() - i,
    {
        let ghost before = views(list@);
        list.push(proofs[i].id.clone());
        proof {
            assert(views(list@) =~= before.push(proofs@[i as int].id@));
            assert(request_ids(proofs@).take(i as int + 1) =~= before.push(
                proofs@[i as int].id@,
            ));
        }
        i = i + 1;
    }
    assert(request_ids(proofs@).take(proofs@.len() as int) =~= request_ids(proofs@));
    let ids = IdSet::from_ids(list);
    if truncated {
        PendingObservation::Partial(ids)
    } else {
        PendingObservation::Complete(ids)
    }
}

#[verifier::external_type_specification]
#[verifier::external_body]
pub struct ExReport(eyre::Report);

/// The gRPC codes along the chain of an error report, outermost first; `None`
/// for an error that is no gRPC status.
pub uninterp spec fn chain_codes(e: eyre::Report) -> Seq<Option<i32>>;

/// `eyre::Report::chain`, with `tonic::Status::code` of each error that is a
/// status: the codes along the chain.
#[verifier::external_body]
fn report_codes(e: &eyre::Report) -> (codes: Vec<Option<i32>>)
    ensures
        codes@ == chain_codes(*e),
{
    e.chain().map(|src| src.downcast_ref::<tonic::Status>().map(|s| i32::from(s.code()))).collect()
}

/// Whether the code `Unimplemented` is among `codes`.
pub fn any_unimplemented(codes: &Vec<Option<i32>>) -> (b: bool)
    ensures
        b == codes@.contains(Some(CODE_UNIMPLEMENTED)),
        b == codes@.contains(Some(12i32)),
{
    let mut i: usize = 0;
    while i < codes.len()
        invariant
            i <= codes@.len(),
            forall|j: int| 0 <= j < i ==> #[trigger] codes@[j] != Some(CODE_UNIMPLEMENTED),
        decreases codes@.len() - i,
    {
        if let Some(code) = codes[i] {
            if code == CODE_UNIMPLEMENTED {
                assert(codes@[i as int] == Some(CODE_UNIMPLEMENTED));
                return true;
            }
        }
        i = i + 1;
    }
    false
}

/// Whether a failed query means that the backend does not know it, as opposed
/// to any other failure. Goes by the typed code, never by words in a message.
pub fn pending_query_unimplemented(e: &eyre::Report) -> (b: bool)
    ensures
        b == chain_codes(*e).contains(Some(CODE_UNIMPLEMENTED)),
        b == chain_codes(*e).contains(Some(12i32)),
{
    let codes = report_codes(e);
    any_unimplemented(&codes)
}

impl ProofRequest {
    /// The proof mode that the record carries; 0 when it carries none.
    pub open spec fn mode(self) -> i32 {
        match self.options_artifact_id {
            Some(s) => match signed_number(s@) {
                Some(m) => m as i32,
                None => 0,
            },
            None => 0,
        }
    }

    /// Who asked, if recorded.
    pub open spec fn asker(self) -> Option<Seq<u8>> {
        if self.requester@.len() == 0 {
            None
        } else {
            Some(self.requester@)
        }
    }

    /// How old the request is at `unix_now`, if that is recorded and plausible.
    pub open spec fn age(self, unix_now: u64) -> Option<Duration> {
        if self.created_at == 0 || self.created_at > unix_now {
            None
        } else {
            Some(Duration { secs: (unix_now - self.created_at) as u64, subsec_nanos: 0 })
        }
    }

    /// The pool of the proof. The record keeps no key hash, so the mode decides.
    pub open spec fn pool(self, classifier: ClassifierView) -> Option<PoolId> {
        classifier.pool_of(self.mode(), Seq::empty())
    }

    fn get_mode(&self) -> (m: i32)
        ensures
            m == self.mode(),
    {
        match &self.options_artifact_id {
            Some(s) => {
                let chars = chars_of(s.as_str());
                match read_i32(chars.as_slice()) {
                    Some(m) => m,
                    None => 0,
                }
            },
            None => 0,
        }
    }

    fn get_asker(&self) -> (r: Option<Vec<u8>>)
        ensures
            crate::slots::bytes_view(r) == self.asker(),
    {
        if self.requester.len() == 0 {
            None
        } else {
            Some(copy_bytes(self.requester.as_slice()))
        }
    }

    fn get_age(&self, unix_now: u64) -> (r: Option<Duration>)
        ensures
            r == self.age(unix_now),
    {
        if self.created_at == 0 || self.created_at > unix_now {
            None
        } else {
            Some(Duration::from_secs(unix_now - self.created_at))
        }
    }
}

/// The controller after it learnt of each classified proof.
pub open spec fn seeded_from(
    v: GateView,
    proofs: Seq<ProofRequest>,
    unix_now: u64,
    now: int,
) -> GateView
    decreases proofs.len(),
{
    if proofs.len() == 0 {
        v
    } else {
        let rest = seeded_from(v, proofs.drop_last(), unix_now, now);
        let p = proofs.last();
        match p.pool(v.classifier) {
            Some(pool) => rest.seeded(p.id@, pool, p.asker(), p.age(unix_now), now),
            None => rest,
        }
    }
}

/// How many of the proofs belong to a pool.
pub open spec fn classified(classifier: ClassifierView, proofs: Seq<ProofRequest>) -> nat
    decreases proofs.len(),
{
    if proofs.len() == 0 {
        0
    } else {
        classified(classifier, proofs.drop_last()) + if proofs.last().pool(classifier) is Some {
            1nat
        } else {
            0nat
        }
    }
}

/// Seeds the controller with the proofs that were pending before this process
/// started, at a given time. Returns how many belong to a pool.
pub fn seed_admission_at(
    admission: &mut AdmissionController,
    proofs: &Vec<ProofRequest>,
    unix_now: u64,
    now: Duration,
) -> (n: usize)
    requires
        old(admission).wf(),
        old(admission)@.counts.sum() + proofs@.len() <= usize::MAX,
    ensures
        final(admission).wf(),
        final(admission)@ == seeded_from(old(admission)@, proofs@, unix_now, now.nanos()),
        n == classified(old(admission)@.classifier, proofs@),
{
    let ghost start = admission@;
    let mut n: usize = 0;
    let mut i: usize = 0;
    assert(proofs@.take(0) =~= Seq::empty());
    while i < proofs.len()
        invariant
            i <= proofs@.len(),
            n <= i,
            admission.wf(),
            admission@ == seeded_from(start, proofs@.take(i as int), unix_now, now.nanos()),
            admission@.classifier == start.classifier,
            n == classified(start.classifier, proofs@.take(i as int)),
            admission@.counts.sum() <= start.counts.sum() + i,
            start.counts.sum() + proofs@.len() <= usize::MAX,
        decreases proofs@.len() - i,
    {
        proof {
            assert(proofs@.take(i as int + 1).drop_last() =~= proofs@.take(i as int));
            assert(proofs@.take(i as int + 1).last() == proofs@[i as int]);
        }
        let p = &proofs[i];
        let empty: Vec<u8> = Vec::new();
        assert(empty@ =~= Seq::empty());
        if let Some(pool) = admission.classify(p.get_mode(), empty.as_slice()) {
            admission.seed_at(p.id.as_str(), pool, p.get_asker(), p.get_age(unix_now), now);
            n = n + 1;
        }
        i = i + 1;
    }
    assert(proofs@.take(proofs@.len() as int) =~= proofs@);
    n
}

/// Seeds the controller with the proofs that were pending before this process
/// started. Returns how many belong to a pool.
pub fn seed_admission_from_cluster(
    admission: &mut AdmissionController,
    proofs: &Vec<ProofRequest>,
    unix_now: u64,
) -> (n: usize)
    requires
        old(admission).wf(),
        old(admission)@.counts.sum() + proofs@.len() <= usize::MAX,
    ensures
        final(admission).wf(),
        exists|now: Duration|
            {
                &&& old(admission)@.last.nanos() <= now.nanos()
                &&& final(admission)@ == seeded_from(
                    #[trigger] old(admission)@.read(now),
                    proofs@,
                    unix_now,
                    now.nanos(),
                )
            },
        n == classified(old(admission)@.classifier, proofs@),
{
    let now = admission.now();
    seed_admission_at(admission, proofs, unix_now, now)
}

/// How the query for the Pending set ended.
pub enum FetchOutcome {
    /// The cluster replied.
    Replied(Vec<ProofRequest>),
    /// The backend does not know the query.
    Unimplemented,
    /// The query failed.
    Failed,
    /// The query took too long.
    TimedOut,
    /// Nothing is tracked, so the cluster was not asked.
    NotAsked,
}

/// What a tick has to say about its query.
#[derive(Copy, Clone, PartialEq, Eq, Debug, Structural)]
pub enum TickNote {
    /// Nothing: a complete reply, an episode that was reported already, or no
    /// query at all.
    Quiet,
    /// The reply filled the page; how many ids it shows.
    Truncated(usize),
    /// The backend does not know the query: reported once per episode.
    Unimplemented,
    /// The query failed.
    Failed,
    /// The query took too long.
    TimedOut,
}

/// What the tick says about an outcome; `warned` tells whether the current
/// episode of an unknown query was reported already.
pub open spec fn note_of(outcome: FetchOutcome, warned: bool) -> TickNote {
    match outcome {
        FetchOutcome::Replied(proofs) => if proofs@.len() >= PENDING_QUERY_LIMIT {
            TickNote::Truncated(request_ids(proofs@).to_set().len() as usize)
        } else {
            TickNote::Quiet
        },
        FetchOutcome::Unimplemented => if warned {
            TickNote::Quiet
        } else {
            TickNote::Unimplemented
        },
        FetchOutcome::Failed => TickNote::Failed,
        FetchOutcome::TimedOut => TickNote::TimedOut,
        FetchOutcome::NotAsked => TickNote::Quiet,
    }
}

/// Whether the current episode of an unknown query has been reported: it
/// begins with an unknown query and ends with a reply.
pub open spec fn warned_after(outcome: FetchOutcome, warned: bool) -> bool {
    match outcome {
        FetchOutcome::Replied(_) => false,
        FetchOutcome::Unimplemented => true,
        _ => warned,
    }
}

/// Turns the outcome of a query into the one observation of this tick. An
/// unknown query is never a reason to stop asking: a rolling upgrade heals.
pub fn observe(outcome: FetchOutcome, warned: &mut bool) -> (r: (PendingObservation, TickNote))
    ensures
        r.0.wf(),
        r.1 == note_of(outcome, *old(warned)),
        *final(warned) == warned_after(outcome, *old(warned)),
        match outcome {
            FetchOutcome::Replied(proofs) => match r.0 {
                PendingObservation::Partial(ids) => proofs@.len() >= PENDING_QUERY_LIMIT && ids@
                    == request_ids(proofs@).to_set(),
                PendingObservation::Complete(ids) => proofs@.len() < PENDING_QUERY_LIMIT && ids@
                    == request_ids(proofs@).to_set(),
                PendingObservation::Gap => false,
            },
            _ => r.0 is Gap,
        },
{
    match outcome {
        FetchOutcome::Replied(proofs) => {
            *warned = false;
            let obs = classify_pending(proofs, PENDING_QUERY_LIMIT as usize);
            let note = match &obs {
                PendingObservation::Partial(ids) => TickNote::Truncated(ids.len()),
                _ => TickNote::Quiet,
            };
            (obs, note)
        },
        FetchOutcome::Unimplemented => {
            let note = if *warned {
                TickNote::Quiet
            } else {
                TickNote::Unimplemented
            };
            *warned = true;
            (PendingObservation::Gap, note)
        },
        FetchOutcome::Failed => (PendingObservation::Gap, TickNote::Failed),
        FetchOutcome::TimedOut => (PendingObservation::Gap, TickNote::TimedOut),
        FetchOutcome::NotAsked => (PendingObservation::Gap, TickNote::Quiet),
    }
}

/// What one tick of the reaper did.
pub struct TickReport {
    pub note: TickNote,
    /// Some of the ids that the cluster's reply shows.
    pub pending_ids: Vec<String>,
    pub reconcile: ReconcileReport,
    /// Slots whose deadline had passed.
    pub reaped: usize,
}

/// The controller after it was reconciled with the outcome of a query.
pub open spec fn reconciled_with(
    v: GateView,
    outcome: FetchOutcome,
    threshold: u32,
    now: int,
) -> GateView {
    match outcome {
        FetchOutcome::Replied(proofs) => v.reconciled(
            request_ids(proofs@).to_set(),
            proofs@.len() >= PENDING_QUERY_LIMIT,
            threshold,
            now,
        ),
        _ => v,
    }
}

/// The controller after one tick of the reaper.
pub open spec fn ticked(v: GateView, outcome: FetchOutcome, threshold: u32, now: int) -> GateView {
    reconciled_with(v, outcome, threshold, now).reaped(now).aged(now)
}

/// One tick of the reaper at a given time: reconcile with the cluster's reply
/// first, then reap, then publish ages. Reconciling first refreshes what the
/// cluster still shows, so that a slot is not reaped on the very tick on which
/// a long outage ends.
pub fn reaper_tick_at(
    gate: &mut AdmissionController,
    warned: &mut bool,
    outcome: FetchOutcome,
    absent_observations: u32,
    now: Duration,
) -> (r: TickReport)
    requires
        old(gate).wf(),
    ensures
        final(gate).wf(),
        final(gate)@ == reconciled_with(
            old(gate)@,
            outcome,
            absent_observations,
            now.nanos(),
        ).reaped(now.nanos()).aged(now.nanos()),
        final(gate)@ == ticked(old(gate)@, outcome, absent_observations, now.nanos()),
        *final(warned) == warned_after(outcome, *old(warned)),
        r.note == note_of(outcome, *old(warned)),
        r.reaped == reconciled_with(
            old(gate)@,
            outcome,
            absent_observations,
            now.nanos(),
        ).expired_ids(now.nanos()).len(),
        match outcome {
            FetchOutcome::Replied(proofs) => {
                &&& is_sample(r.pending_ids@, request_ids(proofs@).to_set())
                &&& r.reconcile.tells(
                    old(gate)@,
                    request_ids(proofs@).to_set(),
                    proofs@.len() >= PENDING_QUERY_LIMIT,
                    absent_observations,
                    now.nanos(),
                )
            },
            _ => {
                &&& r.pending_ids@.len() == 0
                &&& r.reconcile.kind@ == "skip"@
                &&& r.reconcile.is_blank()
            },
        },
{
    let (obs, note) = observe(outcome, warned);
    let pending_ids = match &obs {
        PendingObservation::Complete(ids) => ids.sample(ID_SAMPLE_CAP),
        PendingObservation::Partial(ids) => ids.sample(ID_SAMPLE_CAP),
        PendingObservation::Gap => Vec::new(),
    };
    let reconcile = gate.reconcile_at(obs, absent_observations, now);
    let reaped: usize = gate.reap_at(now);
    gate.report_slot_ages_at(now);
    TickReport { note, pending_ids, reconcile, reaped }
}

/// The operations that one tick of the reaper consists of.
pub open spec fn tick_events(outcome: FetchOutcome, threshold: u32, at: Duration) -> Seq<Event> {
    let last = seq![Event { op: Op::Reap, at }, Event { op: Op::Publish, at }];
    match outcome {
        FetchOutcome::Replied(proofs) => seq![
            Event {
                op: Op::Reconcile {
                    live: request_ids(proofs@).to_set(),
                    partial: proofs@.len() >= PENDING_QUERY_LIMIT,
                    threshold,
                },
                at,
            },
        ] + last,
        _ => last,
    }
}

/// A run ends with its last operation.
proof fn lemma_run_ends(v: GateView, events: Seq<Event>, e: Event, before: GateView)
    requires
        events.len() > 0,
        events.last() == e,
        run(v, events.drop_last()) == before,
    ensures
        run(v, events) == after(before, e),
{
}

/// Reconciling with an outcome is a run of one operation, or of none.
proof fn lemma_reconciling_is_a_run(
    v: GateView,
    outcome: FetchOutcome,
    threshold: u32,
    at: Duration,
)
    ensures
        run(v, tick_events(outcome, threshold, at).drop_last().drop_last()) == reconciled_with(
            v,
            outcome,
            threshold,
            at.nanos(),
        ),
{
    let one = tick_events(outcome, threshold, at).drop_last().drop_last();
    if outcome is Replied {
        assert(one.drop_last() =~= Seq::empty());
        lemma_run_ends(v, one, one.last(), v);
    } else {
        assert(one =~= Seq::empty());
    }
}

/// Reaping and publishing, one after the other.
proof fn lemma_last_steps(w: GateView, at: Duration)
    ensures
        after(after(w, Event { op: Op::Reap, at }), Event { op: Op::Publish, at }) == w.reaped(
            at.nanos(),
        ).aged(at.nanos()),
{
}

/// A tick is a run of operations.
proof fn lemma_tick_runs(
    v: GateView,
    events: Seq<Event>,
    swept: GateView,
    at: Duration,
)
    requires
        events.len() >= 2,
        events.last() == (Event { op: Op::Publish, at }),
        events.drop_last().last() == (Event { op: Op::Reap, at }),
        run(v, events.drop_last().drop_last()) == swept,
    ensures
        run(v, events) == swept.reaped(at.nanos()).aged(at.nanos()),
{
    let two = events.drop_last();
    lemma_run_ends(v, two, two.last(), swept);
    lemma_run_ends(v, events, events.last(), after(swept, two.last()));
    lemma_last_steps(swept, at);
}

/// A tick ends with reaping and publishing, and holds no operation that counts a
/// request.
proof fn lemma_tick_events(outcome: FetchOutcome, threshold: u32, at: Duration)
    ensures
        ({
            let events = tick_events(outcome, threshold, at);
            &&& events.len() >= 2
            &&& events.last() == (Event { op: Op::Publish, at })
            &&& events.drop_last().last() == (Event { op: Op::Reap, at })
            &&& forall|i: int|
                0 <= i < events.len() ==> !((#[trigger] events[i]).op is Acquire)
                    && !(events[i].op is Seed)
        }),
{
}

/// A tick is a run of operations, none of which counts a request: what holds of
/// every run holds of runs with ticks in them.
pub proof fn law_tick_is_a_run(v: GateView, outcome: FetchOutcome, threshold: u32, at: Duration)
    ensures
        ticked(v, outcome, threshold, at.nanos()) == run(v, tick_events(outcome, threshold, at)),
        forall|i: int|
            0 <= i < tick_events(outcome, threshold, at).len() ==> {
                let op = (#[trigger] tick_events(outcome, threshold, at)[i]).op;
                !(op is Acquire) && !(op is Seed)
            },
{
    let events = tick_events(outcome, threshold, at);
    let swept = reconciled_with(v, outcome, threshold, at.nanos());
    assert(run(v, events) == swept.reaped(at.nanos()).aged(at.nanos())) by {
        lemma_tick_events(outcome, threshold, at);
        lemma_reconciling_is_a_run(v, outcome, threshold, at);
        lemma_tick_runs(v, events, swept, at);
    }
    lemma_tick_events(outcome, threshold, at);
}

/// A tick keeps everything that operations keep: a sound state, counts in step
/// with slots, the settings, and an enforcing controller within its caps.
pub proof fn law_tick_keeps(v: GateView, outcome: FetchOutcome, threshold: u32, at: Duration)
    requires
        v.sound(),
    ensures
        ({
            let next = ticked(v, outcome, threshold, at.nanos());
            &&& next.sound()
            &&& v.wf() ==> next.wf()
            &&& v.balanced() ==> next.balanced()
            &&& same_policy(v, next)
            &&& within_caps(v) ==> within_caps(next)
        }),
{
    let swept = reconciled_with(v, outcome, threshold, at.nanos());
    if let FetchOutcome::Replied(proofs) = outcome {
        let op = Op::Reconcile {
            live: request_ids(proofs@).to_set(),
            partial: proofs@.len() >= PENDING_QUERY_LIMIT,
            threshold,
        };
        law_operation_takes_only(v, Event { op, at });
    }
    law_operation_takes_only(swept, Event { op: Op::Reap, at });
    law_operation_takes_only(swept.reaped(at.nanos()), Event { op: Op::Publish, at });
}

/// A tick never takes back a committed slot that the cluster's reply shows.
pub proof fn law_tick_spares_shown(
    v: GateView,
    proofs: Vec<ProofRequest>,
    id: Seq<char>,
    threshold: u32,
    now: int,
)
    requires
        v.tracks(id),
        request_ids(proofs@).contains(id),
        v.ttl.nanos() > 0,
    ensures
        ticked(v, FetchOutcome::Replied(proofs), threshold, now).slots.contains_key(id),
{
    crate::laws::law_present_is_kept(
        v,
        id,
        request_ids(proofs@).to_set(),
        proofs@.len() >= PENDING_QUERY_LIMIT,
        threshold,
        now,
    );
}

/// What a tick does to one slot. A slot that its handler still holds is left
/// alone. One that was handed over and is shown is refreshed, whatever its
/// deadline was. One that a full reply does not show is taken back once it has
/// been absent often enough. Whatever is not shown goes when its deadline
/// passes, also without a reply.
pub proof fn law_tick_of_a_slot(
    v: GateView,
    outcome: FetchOutcome,
    id: Seq<char>,
    threshold: u32,
    at: Duration,
)
    requires
        v.sound(),
        v.slots.contains_key(id),
        v.slots[id].committed_at matches Some(t) ==> t <= length(at),
        length(v.ttl) > 0,
    ensures
        ({
            let next = ticked(v, outcome, threshold, length(at));
            let slot = v.slots[id];
            let kept = next.slots.contains_key(id);
            let due = slot.deadline <= length(at);
            let young = slot.committed_at matches Some(t) && length(at) - t < length(
                v.commit_grace,
            );
            &&& slot.committed_at is None ==> kept && next.slots[id] == slot
            &&& slot.committed_at is Some ==> match outcome {
                FetchOutcome::Replied(proofs) => {
                    let shown = exists|i: int|
                        0 <= i < proofs@.len() && (#[trigger] proofs@[i]).id@ == id;
                    &&& shown ==> {
                        &&& kept
                        &&& next.slots[id].deadline == length(at) + length(v.ttl)
                        &&& next.slots[id].absent_streak == 0
                        &&& same_admission(slot, next.slots[id])
                    }
                    &&& !shown && (proofs@.len() >= 1000 || young) ==> (kept <==> !due)
                    &&& !shown && proofs@.len() < 1000 && !young ==> (kept <==> !due
                        && slot.absent_streak + 1 < threshold)
                    &&& kept ==> next.slots[id].committed_at == slot.committed_at
                },
                _ => (kept <==> !due) && (kept ==> next.slots[id] == slot),
            }
        }),
{
    let now = length(at);
    assert(at.nanos() == now);
    let swept = reconciled_with(v, outcome, threshold, now);
    if let FetchOutcome::Replied(proofs) = outcome {
        let live = request_ids(proofs@).to_set();
        let partial = proofs@.len() >= PENDING_QUERY_LIMIT;
        law_operation_takes_only(v, Event { op: Op::Reconcile { live, partial, threshold }, at });
        law_snapshot_of_a_slot(v, id, live, partial, threshold, now);
        assert(live.contains(id) <==> exists|i: int|
            0 <= i < proofs@.len() && (#[trigger] proofs@[i]).id@ == id) by {
            let ids = request_ids(proofs@);
            if live.contains(id) {
                let i = choose|i: int| 0 <= i < ids.len() && ids[i] == id;
                assert(proofs@[i].id@ == id);
            }
            if exists|i: int| 0 <= i < proofs@.len() && (#[trigger] proofs@[i]).id@ == id {
                let i = choose|i: int| 0 <= i < proofs@.len() && (#[trigger] proofs@[i]).id@ == id;
                assert(ids[i] == id);
            }
        }
    }
    law_reaper_takes(swept, now);
    law_publishing_changes_ages_only(swept.reaped(now), now);
}

/// A query that the backend does not know is reported once, until a reply ends
/// the episode; other failures are reported every time, and a reply exactly if
/// it fills its page.
pub proof fn law_tick_notes(outcome: FetchOutcome, warned: bool)
    ensures
        ({
            let next = warned_after(outcome, warned);
            let again = note_of(FetchOutcome::Unimplemented, next);
            &&& outcome is Replied ==> again is Unimplemented
            &&& outcome is Unimplemented ==> again is Quiet
            &&& !(outcome is Replied) && warned ==> again is Quiet
            &&& !(outcome is Replied) && !(outcome is Unimplemented) && !warned ==> again
                is Unimplemented
            &&& outcome is Failed ==> note_of(outcome, warned) is Failed
            &&& outcome is TimedOut ==> note_of(outcome, warned) is TimedOut
            &&& outcome is NotAsked ==> note_of(outcome, warned) is Quiet
            &&& outcome matches FetchOutcome::Replied(proofs) ==> {
                &&& proofs@.len() < 1000 ==> note_of(outcome, warned) is Quiet
                &&& proofs@.len() >= 1000 ==> note_of(outcome, warned) == TickNote::Truncated(
                    request_ids(proofs@).to_set().len() as usize,
                )
            }
        }),
{
}

/// What a record tells of its proof: the mode if it carries a number, who asked
/// unless that is empty, and the age unless the time is missing or ahead.
pub proof fn law_proof_record(p: ProofRequest, n: nat, unix_now: u64)
    requires
        n <= 0x7fff_ffff,
    ensures
        p.options_artifact_id is None ==> p.mode() == 0,
        p.options_artifact_id matches Some(s) ==> {
            &&& s@ == decimal(n) ==> p.mode() == n
            &&& signed_number(s@) is None ==> p.mode() == 0
        },
        p.requester@.len() == 0 <==> p.asker() is None,
        p.asker() matches Some(r) ==> r == p.requester@,
        p.created_at == 0 || p.created_at > unix_now <==> p.age(unix_now) is None,
        p.age(unix_now) matches Some(d) ==> p.created_at + d.secs == unix_now && d.subsec_nanos
            == 0,
{
    law_decimal_reads_back(n, 0x7fff_ffff);
}

/// The pool of a recorded proof goes by its mode alone, where no list names the
/// empty key hash: 2 is a range proof, 3 and 4 are aggregation proofs.
pub proof fn law_proof_pool(p: ProofRequest, c: ClassifierView)
    requires
        !c.range_vks.contains(Seq::empty()),
        !c.agg_vks.contains(Seq::empty()),
    ensures
        p.options_artifact_id matches Some(s) ==> {
            &&& s@ == decimal(2) ==> p.pool(c) == Some(PoolId::Range)
            &&& s@ == decimal(3) || s@ == decimal(4) ==> p.pool(c) == Some(PoolId::Agg)
            &&& signed_number(s@) is None ==> p.pool(c) is None
        },
        p.options_artifact_id is None ==> p.pool(c) is None,
{
    law_decimal_reads_back(2, 0x7fff_ffff);
    law_decimal_reads_back(3, 0x7fff_ffff);
    law_decimal_reads_back(4, 0x7fff_ffff);
}

/// The slot stands for the proof `p`: handed over now, got when the proof was
/// asked for.
pub open spec fn stands_for(
    slot: SlotView,
    p: ProofRequest,
    v: GateView,
    unix_now: u64,
    now: int,
) -> bool {
    &&& p.pool(v.classifier) == Some(slot.pool)
    &&& slot.requester == if p.requester@.len() == 0 {
        None
    } else {
        Some(p.requester@)
    }
    &&& slot.admitted_at == if 0 < p.created_at <= unix_now {
        now - (unix_now - p.created_at) * 1_000_000_000
    } else {
        now
    }
    &&& slot.committed_at == Some(now)
    &&& slot.deadline == now + length(v.ttl)
    &&& slot.absent_streak == 0
}

/// Seeding gives every classified proof a slot that stands for it, over every
/// cap, leaves slots that were held as they are, and makes no others.
pub proof fn law_seeded_slots(v: GateView, proofs: Seq<ProofRequest>, unix_now: u64, now: int)
    ensures
        ({
            let next = seeded_from(v, proofs, unix_now, now);
            &&& forall|id: Seq<char>| #[trigger]
                v.slots.contains_key(id) ==> next.slots.contains_key(id) && next.slots[id]
                    == v.slots[id]
            &&& forall|i: int|
                0 <= i < proofs.len() && (#[trigger] proofs[i]).pool(v.classifier) is Some
                    ==> next.slots.contains_key(proofs[i].id@)
            &&& forall|id: Seq<char>| #[trigger]
                next.slots.contains_key(id) && !v.slots.contains_key(id) ==> exists|i: int|
                    0 <= i < proofs.len() && (#[trigger] proofs[i]).id@ == id && stands_for(
                        next.slots[id],
                        proofs[i],
                        v,
                        unix_now,
                        now,
                    )
            &&& next.demand == v.demand
            &&& next.classifier == v.classifier
            &&& next.ttl == v.ttl
        }),
    decreases proofs.len(),
{
    if proofs.len() > 0 {
        let n = proofs.len() - 1;
        let rest = proofs.drop_last();
        let before = seeded_from(v, rest, unix_now, now);
        let next = seeded_from(v, proofs, unix_now, now);
        law_seeded_slots(v, rest, unix_now, now);
        let p = proofs[n];
        assert(p == proofs.last());
        assert forall|i: int|
            0 <= i < proofs.len() && (#[trigger] proofs[i]).pool(v.classifier)
                is Some implies next.slots.contains_key(proofs[i].id@) by {
            if i < n {
                assert(rest[i] == proofs[i]);
                assert(before.slots.contains_key(proofs[i].id@));
            }
        }
        assert forall|id: Seq<char>| #[trigger]
            next.slots.contains_key(id) && !v.slots.contains_key(id) implies exists|i: int|
            0 <= i < proofs.len() && (#[trigger] proofs[i]).id@ == id && stands_for(
                next.slots[id],
                proofs[i],
                v,
                unix_now,
                now,
            ) by {
            if before.slots.contains_key(id) {
                let i = choose|i: int|
                    0 <= i < rest.len() && (#[trigger] rest[i]).id@ == id && stands_for(
                        before.slots[id],
                        rest[i],
                        v,
                        unix_now,
                        now,
                    );
                assert(proofs[i] == rest[i]);
                assert(next.slots[id] == before.slots[id]);
            } else {
                assert(proofs[n].id@ == id);
                assert(stands_for(next.slots[id], p, v, unix_now, now));
            }
        }
    }
}

/// Seeding counts every slot that it makes.
pub proof fn law_seeding_counts(v: GateView, proofs: Seq<ProofRequest>, unix_now: u64, now: int)
    requires
        v.slots.dom().finite(),
        v.counts.range + v.counts.agg + proofs.len() <= usize::MAX,
    ensures
        ({
            let next = seeded_from(v, proofs, unix_now, now);
            &&& next.slots.dom().finite()
            &&& next.counts.range + next.counts.agg - (v.counts.range + v.counts.agg)
                == next.slots.dom().len() - v.slots.dom().len()
            &&& next.counts.range + next.counts.agg <= v.counts.range + v.counts.agg
                + proofs.len()
        }),
    decreases proofs.len(),
{
    if proofs.len() > 0 {
        let before = seeded_from(v, proofs.drop_last(), unix_now, now);
        law_seeding_counts(v, proofs.drop_last(), unix_now, now);
        let p = proofs.last();
        if let Some(pool) = p.pool(v.classifier) {
            let next = before.seeded(p.id@, pool, p.asker(), p.age(unix_now), now);
            if !before.slots.contains_key(p.id@) {
                assert(next.slots.dom() =~= before.slots.dom().insert(p.id@));
                match pool {
                    PoolId::Range => {},
                    PoolId::Agg => {},
                }
            }
        }
    }
}

/// How many proofs belong to a pool is how many are left without the others.
pub proof fn law_classified_proofs(c: ClassifierView, proofs: Seq<ProofRequest>)
    ensures
        classified(c, proofs) == proofs.filter(
            |p: ProofRequest| c.pool_of(p.mode(), Seq::empty()) is Some,
        ).len(),
    decreases proofs.len(),
{
    reveal(Seq::filter);
    if proofs.len() > 0 {
        law_classified_proofs(c, proofs.drop_last());
    }
}

} // verus!
