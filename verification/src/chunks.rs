//! Splitting artifacts into chunks, and putting them together again.
use vstd::prelude::*;
use vstd::slice::slice_subrange;

use crate::nodes::{chunks_key, ArtifactType};
use crate::tables::copy_bytes;
use crate::text::{chars_of, decimal, law_decimal_reads_back, read_unsigned, unsigned_number};
use crate::time::Duration;

verus! {

/// Default bytes per chunk. Small on purpose: each chunk travels on its own
/// connection, and on a long link only parallel streams add up to bandwidth.
pub const DEFAULT_CHUNK_SIZE: usize = 4 * 1024 * 1024;

/// Smaller overrides are ignored: they would split one artifact into an absurd
/// number of chunks.
pub const MIN_CHUNK_SIZE: usize = 1024 * 1024;

/// How long an artifact is kept: four hours.
pub const ARTIFACT_TIMEOUT_SECONDS: u64 = 4 * 60 * 60;

/// Shortest timeout of a transfer, in seconds.
pub const TRANSFER_TIMEOUT_SECS: u64 = 60;

/// Slowest throughput that a transfer is given time for.
pub const MIN_UPLOAD_BYTES_PER_SEC: u64 = 512 * 1024;

/// The chunk size that a raw override gives: the number that it writes, if it
/// is one and not too small, else the default.
pub open spec fn chunk_size_of(raw: Option<Seq<char>>) -> nat {
    match raw {
        Some(s) => match unsigned_number(s, usize::MAX as nat) {
            Some(v) => if v >= MIN_CHUNK_SIZE {
                v
            } else {
                DEFAULT_CHUNK_SIZE as nat
            },
            None => DEFAULT_CHUNK_SIZE as nat,
        },
        None => DEFAULT_CHUNK_SIZE as nat,
    }
}

/// The chunk size that a raw override gives.
pub fn resolve_chunk_size(raw: Option<String>) -> (n: usize)
    ensures
        n == chunk_size_of(
            match raw {
                Some(s) => Some(s@),
                None => None,
            },
        ),
        n >= MIN_CHUNK_SIZE,
{
    match raw {
        Some(s) => {
            let chars = chars_of(s.as_str());
            match read_unsigned(chars.as_slice(), usize::MAX as u64) {
                Some(v) => {
                    if v >= MIN_CHUNK_SIZE as u64 {
                        v as usize
                    } else {
                        DEFAULT_CHUNK_SIZE
                    }
                },
                None => DEFAULT_CHUNK_SIZE,
            }
        },
        None => DEFAULT_CHUNK_SIZE,
    }
}

/// Timeout of one attempt to upload `len` bytes: the time that they take at
/// the slowest accepted throughput, but no less than the shortest timeout.
pub fn upload_attempt_timeout(len: u64) -> (d: Duration)
    ensures
        d.subsec_nanos == 0,
        d.secs == if len / MIN_UPLOAD_BYTES_PER_SEC > TRANSFER_TIMEOUT_SECS {
            len / MIN_UPLOAD_BYTES_PER_SEC
        } else {
            TRANSFER_TIMEOUT_SECS
        },
        d.secs >= 60,
        d.secs * 524_288 > len - 524_288,
        d.secs > 60 ==> d.secs * 524_288 <= len,
{
    Duration::from_secs(TRANSFER_TIMEOUT_SECS).longer(
        Duration::from_secs(len / MIN_UPLOAD_BYTES_PER_SEC),
    )
}

/// How many chunks `len` bytes make.
pub open spec fn pieces(len: nat, chunk: nat) -> nat
    recommends
        chunk > 0,
{
    if len % chunk == 0 {
        len / chunk
    } else {
        len / chunk + 1
    }
}

/// How many chunks `len` bytes make.
pub fn chunk_count(len: usize, chunk: usize) -> (n: usize)
    requires
        chunk > 0,
    ensures
        n == pieces(len as nat, chunk as nat),
{
    if len % chunk == 0 {
        len / chunk
    } else {
        proof {
            if chunk == 1 {
                assert(len % chunk == 0);
            }
            assert(len / chunk <= len / 2) by (nonlinear_arith)
                requires
                    chunk >= 2,
            ;
        }
        len / chunk + 1
    }
}

/// The `i`-th chunk of `data`: `chunk` bytes, or what is left.
pub open spec fn piece(data: Seq<u8>, chunk: nat, i: int) -> Seq<u8> {
    data.subrange(
        i * chunk,
        if (i + 1) * chunk <= data.len() {
            (i + 1) * chunk
        } else {
            data.len() as int
        },
    )
}

/// The chunks of `data`, in order.
pub open spec fn split(data: Seq<u8>, chunk: nat) -> Seq<Seq<u8>> {
    Seq::new(pieces(data.len(), chunk), |i: int| piece(data, chunk, i))
}

/// Chunks begin inside the data, and together they reach its end.
proof fn lemma_pieces(len: nat, chunk: nat, i: int)
    requires
        chunk > 0,
        0 <= i < pieces(len, chunk),
    ensures
        i * chunk < len,
        (i + 1) * chunk >= chunk,
        i + 1 < pieces(len, chunk) ==> (i + 1) * chunk <= len,
        i + 1 == pieces(len, chunk) ==> (i + 1) * chunk >= len,
        (i + 1) * chunk == i * chunk + chunk,
{
    let q = len / chunk;
    let r = len % chunk;
    assert(len == q * chunk + r && r < chunk) by {
        vstd::arithmetic::div_mod::lemma_fundamental_div_mod(len as int, chunk as int);
        assert(chunk * q == q * chunk) by (nonlinear_arith);
    }
    assert((i + 1) * chunk == i * chunk + chunk) by (nonlinear_arith);
    assert(i * chunk >= 0) by (nonlinear_arith)
        requires
            i >= 0,
            chunk > 0,
    ;
    if i + 1 <= q {
        assert((i + 1) * chunk <= q * chunk) by (nonlinear_arith)
            requires
                i + 1 <= q,
                chunk > 0,
        ;
    }
    if i == q {
        assert(i * chunk == q * chunk) by (nonlinear_arith)
            requires
                i == q,
        ;
    }
    if i + 1 == q {
        assert((i + 1) * chunk == q * chunk) by (nonlinear_arith)
            requires
                i + 1 == q,
        ;
    }
}

/// The first `n` chunks make the beginning of the data.
proof fn lemma_split_prefix(data: Seq<u8>, chunk: nat, n: nat)
    requires
        chunk > 0,
        n <= pieces(data.len(), chunk),
    ensures
        split(data, chunk).take(n as int).flatten() == data.take(
            if n * chunk <= data.len() {
                (n * chunk) as int
            } else {
                data.len() as int
            },
        ),
    decreases n,
{
    let parts = split(data, chunk);
    if n == 0 {
        assert(n * chunk == 0) by (nonlinear_arith)
            requires
                n == 0,
        ;
        assert(parts.take(0) =~= Seq::empty());
        assert(data.take(0) =~= Seq::empty());
    } else {
        let m = (n - 1) as nat;
        lemma_split_prefix(data, chunk, m);
        lemma_pieces(data.len(), chunk, m as int);
        let before = parts.take(m as int);
        let last = piece(data, chunk, m as int);
        assert(parts.take(n as int) =~= before.push(last));
        before.lemma_flatten_push(last);
        let end = if n * chunk <= data.len() {
            (n * chunk) as int
        } else {
            data.len() as int
        };
        assert(data.take((m * chunk) as int) + last =~= data.take(end));
    }
}

/// The chunks of an artifact, put together in order, are the artifact.
pub proof fn law_split_join(data: Seq<u8>, chunk: nat)
    requires
        chunk > 0,
    ensures
        split(data, chunk).flatten() == data,
{
    let n = pieces(data.len(), chunk);
    let parts = split(data, chunk);
    lemma_split_prefix(data, chunk, n);
    assert(parts.take(n as int) =~= parts);
    if n > 0 {
        lemma_pieces(data.len(), chunk, n - 1);
        assert(data.take(data.len() as int) =~= data);
    } else {
        assert(data.len() == 0) by {
            vstd::arithmetic::div_mod::lemma_fundamental_div_mod(data.len() as int, chunk as int);
            assert(chunk * 0 == 0) by (nonlinear_arith);
        }
        assert(data.take(0) =~= data);
    }
}

/// How an artifact is written.
pub enum UploadPlan {
    /// Under its own key, in one piece.
    Whole { key: String, expire_secs: Option<u64> },
    /// As the fields of a hash, numbered from zero.
    Chunks { hash_key: String, chunks: Vec<Vec<u8>>, expire_secs: Option<u64> },
}

/// When an artifact expires: programs never, anything else after its timeout.
pub open spec fn expiry_of(artifact_type: ArtifactType) -> Option<u64> {
    if artifact_type == ArtifactType::Program {
        None
    } else {
        Some(ARTIFACT_TIMEOUT_SECONDS)
    }
}

/// When an artifact expires.
pub fn expiry(artifact_type: ArtifactType) -> (e: Option<u64>)
    ensures
        e == expiry_of(artifact_type),
        e is None <==> artifact_type is Program,
        e matches Some(secs) ==> secs == 14_400,
{
    if artifact_type == ArtifactType::Program {
        None
    } else {
        Some(ARTIFACT_TIMEOUT_SECONDS)
    }
}

/// The bytes of each chunk.
pub open spec fn chunk_views(chunks: Seq<Vec<u8>>) -> Seq<Seq<u8>> {
    chunks.map_values(|c: Vec<u8>| c@)
}

/// Plans how an artifact is written: in one piece if it fits a chunk.
pub fn plan_upload(
    artifact_type: ArtifactType,
    key: &str,
    data: &[u8],
    chunk_size: usize,
) -> (plan: UploadPlan)
    requires
        chunk_size > 0,
    ensures
        match plan {
            UploadPlan::Whole { key: k, expire_secs } => {
                &&& data@.len() <= chunk_size
                &&& k@ == key@
                &&& expire_secs == expiry_of(artifact_type)
                &&& expire_secs is None <==> artifact_type is Program
                &&& expire_secs matches Some(secs) ==> secs == 14_400
            },
            UploadPlan::Chunks { hash_key, chunks, expire_secs } => {
                &&& data@.len() > chunk_size
                &&& hash_key@ == key@ + ":chunks"@
                &&& chunk_views(chunks@) == split(data@, chunk_size as nat)
                &&& expire_secs == expiry_of(artifact_type)
                &&& expire_secs is None <==> artifact_type is Program
                &&& expire_secs matches Some(secs) ==> secs == 14_400
            },
        },
{
    if data.len() <= chunk_size {
        return UploadPlan::Whole { key: key.to_owned(), expire_secs: expiry(artifact_type) };
    }
    let n: usize = chunk_count(data.len(), chunk_size);
    let mut chunks: Vec<Vec<u8>> = Vec::new();
    let mut from: usize = 0;
    let mut i: usize = 0;
    let ghost parts = split(data@, chunk_size as nat);
    while i < n
        invariant
            chunk_size > 0,
            i <= n,
            n == pieces(data@.len(), chunk_size as nat),
            parts == split(data@, chunk_size as nat),
            i < n ==> from == i * chunk_size,
            chunk_views(chunks@) == parts.take(i as int),
        decreases n - i,
    {
        proof {
            lemma_pieces(data@.len(), chunk_size as nat, i as int);
        }
        let to: usize = if data.len() - from >= chunk_size {
            from + chunk_size
        } else {
            data.len()
        };
        let ghost before = chunk_views(chunks@);
        let part = copy_bytes(slice_subrange(data, from, to));
        assert(part@ == piece(data@, chunk_size as nat, i as int));
        chunks.push(part);
        proof {
            assert(chunk_views(chunks@) =~= before.push(part@));
            assert(parts.take(i as int + 1) =~= before.push(parts[i as int]));
        }
        from = to;
        i = i + 1;
    }
    assert(parts.take(n as int) =~= parts);
    UploadPlan::Chunks { hash_key: chunks_key(key), chunks, expire_secs: expiry(artifact_type) }
}

/// How an artifact is read.
pub enum DownloadPlan {
    /// Under its own key, in one piece.
    Whole { key: String },
    /// As the numbered fields of a hash.
    Chunks { hash_key: String, total: usize },
}

/// Plans how an artifact is read: by its chunks, if its hash has any.
pub fn plan_download(key: &str, total_chunks: usize) -> (plan: DownloadPlan)
    ensures
        match plan {
            DownloadPlan::Whole { key: k } => total_chunks == 0 && k@ == key@,
            DownloadPlan::Chunks { hash_key, total } => total_chunks > 0 && hash_key@ == key@
                + ":chunks"@ && total == total_chunks,
        },
{
    if total_chunks == 0 {
        DownloadPlan::Whole { key: key.to_owned() }
    } else {
        DownloadPlan::Chunks { hash_key: chunks_key(key), total: total_chunks }
    }
}

/// Bytes that arrived under a chunk number.
pub struct Part {
    pub idx: usize,
    pub bytes: Vec<u8>,
}

/// The bytes of the last part numbered `i`; nothing if there is none.
pub open spec fn part_at(parts: Seq<Part>, i: int) -> Seq<u8>
    decreases parts.len(),
{
    if parts.len() == 0 {
        Seq::empty()
    } else if parts.last().idx == i {
        parts.last().bytes@
    } else {
        part_at(parts.drop_last(), i)
    }
}

/// Puts parts together by their numbers, in whatever order they arrived.
pub fn assemble(total: usize, parts: Vec<Part>) -> (data: Vec<u8>)
    requires
        forall|j: int| 0 <= j < parts@.len() ==> (#[trigger] parts@[j]).idx < total,
    ensures
        data@ == Seq::new(total as nat, |i: int| part_at(parts@, i)).flatten(),
{
    let mut slots: Vec<Vec<u8>> = Vec::new();
    let mut i: usize = 0;
    while i < total
        invariant
            i <= total,
            slots@.len() == i,
            forall|k: int| 0 <= k < i ==> (#[trigger] slots@[k])@.len() == 0,
        decreases total - i,
    {
        slots.push(Vec::new());
        i = i + 1;
    }
    let mut j: usize = 0;
    assert forall|k: int| 0 <= k < total implies (#[trigger] slots@[k])@ == part_at(
        parts@.take(0),
        k,
    ) by {
        assert(slots@[k]@ =~= Seq::empty());
    }
    while j < parts.len()
        invariant
            j <= parts@.len(),
            slots@.len() == total,
            forall|j: int| 0 <= j < parts@.len() ==> (#[trigger] parts@[j]).idx < total,
            forall|k: int|
                0 <= k < total ==> (#[trigger] slots@[k])@ == part_at(parts@.take(j as int), k),
        decreases parts@.len() - j,
    {
        let copy = copy_bytes(parts[j].bytes.as_slice());
        let ghost before = slots@;
        assert(parts@[j as int].idx < total);
        slots.set(parts[j].idx, copy);
        proof {
            assert(parts@.take(j as int + 1).drop_last() =~= parts@.take(j as int));
            assert forall|k: int| 0 <= k < total implies (#[trigger] slots@[k])@ == part_at(
                parts@.take(j as int + 1),
                k,
            ) by {
                if k != parts@[j as int].idx {
                    assert(slots@[k] == before[k]);
                }
            }
        }
        j = j + 1;
    }
    assert(parts@.take(parts@.len() as int) =~= parts@);
    let ghost whole = Seq::new(total as nat, |i: int| part_at(parts@, i));
    let mut data: Vec<u8> = Vec::new();
    let mut n: usize = 0;
    assert(whole.take(0) =~= Seq::empty());
    while n < slots.len()
        invariant
            n <= slots@.len(),
            slots@.len() == total,
            whole.len() == total,
            forall|k: int| 0 <= k < total ==> (#[trigger] slots@[k])@ == whole[k],
            data@ == whole.take(n as int).flatten(),
        decreases slots@.len() - n,
    {
        proof {
            assert(whole.take(n as int + 1) =~= whole.take(n as int).push(whole[n as int]));
            whole.take(n as int).lemma_flatten_push(whole[n as int]);
            assert(slots@[n as int]@ == whole[n as int]);
        }
        let ghost before = data@;
        let slot = &slots[n];
        data.extend_from_slice(slot.as_slice());
        assert(data@ =~= before + whole[n as int]);
        n = n + 1;
    }
    assert(whole.take(total as int) =~= whole);
    data
}

/// Parts with different numbers: the part numbered `i` is the one that counts.
proof fn lemma_part_at_unique(parts: Seq<Part>, j: int)
    requires
        0 <= j < parts.len(),
        numbered(parts),
    ensures
        part_at(parts, parts[j].idx as int) == parts[j].bytes@,
    decreases parts.len(),
{
    let n = parts.len() - 1;
    if j < n {
        assert(parts[j].idx != parts[n].idx);
        let rest = parts.drop_last();
        assert forall|a: int, b: int| 0 <= a < b < rest.len() implies (#[trigger] rest[a]).idx != (
        #[trigger] rest[b]).idx by {
            assert(parts[a].idx != parts[b].idx);
        }
        lemma_part_at_unique(rest, j);
    }
}

/// The parts have different numbers.
pub open spec fn numbered(parts: Seq<Part>) -> bool {
    forall|a: int, b: int|
        0 <= a < b < parts.len() ==> (#[trigger] parts[a]).idx != (#[trigger] parts[b]).idx
}

/// The `i`-th chunk of `data` is among the parts, under its number.
pub open spec fn arrived(parts: Seq<Part>, data: Seq<u8>, chunk: nat, i: int) -> bool {
    exists|j: int|
        0 <= j < parts.len() && (#[trigger] parts[j]).idx == i && parts[j].bytes@ == split(
            data,
            chunk,
        )[i]
}

/// Reading chunks back gives what was written: whatever the order in which the
/// chunks of `data` arrive, putting them together gives `data`.
pub proof fn law_chunks_read_back(data: Seq<u8>, chunk: nat, parts: Seq<Part>)
    requires
        chunk > 0,
        numbered(parts),
        forall|i: int|
            0 <= i < pieces(data.len(), chunk) ==> #[trigger] arrived(parts, data, chunk, i),
    ensures
        Seq::new(pieces(data.len(), chunk), |i: int| part_at(parts, i)).flatten() == data,
{
    let whole = Seq::new(pieces(data.len(), chunk), |i: int| part_at(parts, i));
    assert forall|i: int| 0 <= i < whole.len() implies whole[i] == split(data, chunk)[i] by {
        assert(arrived(parts, data, chunk, i));
        let j = choose|j: int|
            0 <= j < parts.len() && (#[trigger] parts[j]).idx == i && parts[j].bytes@ == split(
                data,
                chunk,
            )[i];
        lemma_part_at_unique(parts, j);
    }
    assert(whole =~= split(data, chunk));
    law_split_join(data, chunk);
}

/// A program is kept for ever, and nothing else is: artifacts of every other
/// type are gone after four hours.
pub proof fn law_only_programs_stay(artifact_type: ArtifactType)
    ensures
        expiry_of(artifact_type) is None <==> artifact_type is Program,
        !(artifact_type is Program) ==> expiry_of(artifact_type) == Some(14_400u64),
{
}

/// Chunks are as few as can hold the data: the last one is needed, and there is
/// room for everything.
pub proof fn law_chunks_are_few(len: nat, chunk: nat)
    requires
        chunk > 0,
    ensures
        pieces(len, chunk) * chunk >= len,
        len > 0 ==> (pieces(len, chunk) - 1) * chunk < len,
        len == 0 <==> pieces(len, chunk) == 0,
{
    let n = pieces(len, chunk);
    vstd::arithmetic::div_mod::lemma_fundamental_div_mod(len as int, chunk as int);
    if n > 0 {
        lemma_pieces(len, chunk, n - 1);
    } else {
        assert(chunk * 0 == 0) by (nonlinear_arith);
        assert(len == 0);
    }
    if len == 0 {
        assert(0nat / chunk == 0) by (nonlinear_arith)
            requires
                chunk > 0,
        ;
        assert(0nat % chunk == 0) by (nonlinear_arith)
            requires
                chunk > 0,
        ;
    }
}

/// Every chunk but the last is full, and the last holds what is left.
pub proof fn law_chunk_sizes(data: Seq<u8>, chunk: nat, i: int)
    requires
        chunk > 0,
        0 <= i < split(data, chunk).len(),
    ensures
        0 < split(data, chunk)[i].len() <= chunk,
        i + 1 < split(data, chunk).len() ==> split(data, chunk)[i].len() == chunk,
        forall|k: int|
            0 <= k < split(data, chunk)[i].len() ==> #[trigger] split(data, chunk)[i][k] == data[i
                * chunk + k],
{
    lemma_pieces(data.len(), chunk, i);
    assert(i * chunk >= 0) by (nonlinear_arith)
        requires
            i >= 0,
            chunk > 0,
    ;
}

/// A chunk size that is set is taken if it is at least one mebibyte; anything
/// else, or nothing, gives four.
pub proof fn law_chunk_size(n: nat, raw: Seq<char>)
    requires
        n <= usize::MAX,
    ensures
        chunk_size_of(Some(decimal(n))) == if n >= 1_048_576 {
            n
        } else {
            4_194_304
        },
        chunk_size_of(None) == 4_194_304,
        unsigned_number(raw, usize::MAX as nat) is None ==> chunk_size_of(Some(raw)) == 4_194_304,
{
    law_decimal_reads_back(n, usize::MAX as nat);
}

/// The bytes of a chunk number are those of the part that carries the number,
/// and there are none without such a part.
pub proof fn law_parts_by_number(parts: Seq<Part>, i: int)
    requires
        numbered(parts),
    ensures
        forall|j: int|
            0 <= j < parts.len() && (#[trigger] parts[j]).idx == i ==> part_at(parts, i)
                == parts[j].bytes@,
        (forall|j: int| 0 <= j < parts.len() ==> (#[trigger] parts[j]).idx != i) ==> part_at(
            parts,
            i,
        ).len() == 0,
    decreases parts.len(),
{
    assert forall|j: int| 0 <= j < parts.len() && (#[trigger] parts[j]).idx == i implies part_at(
        parts,
        i,
    ) == parts[j].bytes@ by {
        lemma_part_at_unique(parts, j);
    }
    if parts.len() > 0 {
        let rest = parts.drop_last();
        assert forall|a: int, b: int| 0 <= a < b < rest.len() implies (#[trigger] rest[a]).idx != (
        #[trigger] rest[b]).idx by {
            assert(parts[a].idx != parts[b].idx);
        }
        law_parts_by_number(rest, i);
        if forall|j: int| 0 <= j < parts.len() ==> (#[trigger] parts[j]).idx != i {
            assert(parts[parts.len() - 1].idx != i);
            assert forall|j: int| 0 <= j < rest.len() implies (#[trigger] rest[j]).idx != i by {
                assert(parts[j].idx != i);
            }
        }
    }
}

/// A later part takes the place of an earlier one with the same number, and no
/// other.
pub proof fn law_last_part_counts(parts: Seq<Part>, p: Part, i: int)
    ensures
        part_at(parts.push(p), i) == if i == p.idx {
            p.bytes@
        } else {
            part_at(parts, i)
        },
{
    assert(parts.push(p).drop_last() =~= parts);
}

} // verus!
