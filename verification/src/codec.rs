//! Compression of stored artifacts, and why transfers fail.
use vstd::prelude::*;
use vstd::slice::slice_subrange;

use crate::chunks::{arrived, law_chunks_read_back, numbered, part_at, pieces, Part};
use crate::text::{chars_of, starts_with};

verus! {

/// The compression level for artifacts that live a few hours: the default.
pub const STORE_LEVEL: i32 = 0;

#[verifier::external_type_specification]
#[verifier::external_body]
pub struct ExIoError(std::io::Error);

/// What `zstd::encode_all` makes of bytes at a level; `None` if it fails.
pub uninterp spec fn zstd_encoded(data: Seq<u8>, level: i32) -> Option<Seq<u8>>;

/// What `zstd::decode_all` makes of bytes; `None` if it fails.
pub uninterp spec fn zstd_decoded(data: Seq<u8>) -> Option<Seq<u8>>;

/// `zstd::encode_all`: the result is determined by the data and the level, and
/// where it succeeds it decodes to the data.
#[verifier::external_body]
fn encode_all(data: &[u8], level: i32) -> (r: Result<Vec<u8>, std::io::Error>)
    ensures
        match r {
            Ok(c) => zstd_encoded(data@, level) == Some(c@) && zstd_decoded(c@) == Some(data@),
            Err(_) => zstd_encoded(data@, level) is None,
        },
{
    zstd::encode_all(data, level)
}

/// `zstd::decode_all`: the result is determined by the data.
#[verifier::external_body]
fn decode_all(data: &[u8]) -> (r: Result<Vec<u8>, std::io::Error>)
    ensures
        match r {
            Ok(d) => zstd_decoded(data@) == Some(d@),
            Err(_) => zstd_decoded(data@) is None,
        },
{
    zstd::decode_all(data)
}

/// Why an artifact could not be stored or read.
#[derive(Debug)]
pub enum CodecError {
    /// Compressing failed.
    Compress(std::io::Error),
    /// Decompressing failed.
    Decompress(std::io::Error),
}

/// An artifact as it is stored. Reading what was stored gives the artifact
/// back.
pub fn compress_artifact(data: &[u8]) -> (r: Result<Vec<u8>, CodecError>)
    ensures
        match r {
            Ok(c) => {
                &&& zstd_encoded(data@, STORE_LEVEL) == Some(c@)
                &&& zstd_encoded(data@, 0) == Some(c@)
                &&& zstd_decoded(c@) == Some(data@)
            },
            Err(e) => zstd_encoded(data@, STORE_LEVEL) is None && e is Compress,
        },
{
    match encode_all(data, STORE_LEVEL) {
        Ok(c) => Ok(c),
        Err(e) => Err(CodecError::Compress(e)),
    }
}

/// The artifact that was stored.
pub fn decompress_artifact(stored: &[u8]) -> (r: Result<Vec<u8>, CodecError>)
    ensures
        match r {
            Ok(d) => zstd_decoded(stored@) == Some(d@),
            Err(e) => zstd_decoded(stored@) is None && e is Decompress,
        },
{
    match decode_all(stored) {
        Ok(d) => Ok(d),
        Err(e) => Err(CodecError::Decompress(e)),
    }
}

/// `word` stands somewhere in `s`.
pub open spec fn has_word(s: Seq<char>, word: Seq<char>) -> bool {
    exists|i: int|
        0 <= i <= s.len() - word.len() && #[trigger] s.subrange(i, i + word.len()) == word
}

/// How a transfer failed in the end.
#[derive(Copy, Clone, PartialEq, Eq, Debug, Structural)]
pub enum TransferFailure {
    /// Every attempt took too long.
    TimedOut,
    /// Something else went wrong.
    Failed,
}

/// How a transfer failed, from the message of its last error: a message that
/// says `timed out` is a timeout.
pub fn transfer_failure(message: &str) -> (f: TransferFailure)
    ensures
        f == if has_word(message@, "timed out"@) {
            TransferFailure::TimedOut
        } else {
            TransferFailure::Failed
        },
{
    let s = chars_of(message);
    let word = chars_of("timed out");
    let mut i: usize = 0;
    proof {
        reveal_strlit("timed out");
    }
    while i <= s.len() && s.len() - i >= word.len()
        invariant
            i <= s@.len() + 1,
            s@ == message@,
            word@ == "timed out"@,
            word@.len() > 0,
            forall|j: int|
                0 <= j < i && j <= s@.len() - word@.len() ==> #[trigger] s@.subrange(
                    j,
                    j + word@.len(),
                ) != word@,
        decreases s@.len() + 1 - i,
    {
        let rest = slice_subrange(s.as_slice(), i, s.len());
        if starts_with(rest, word.as_slice()) {
            assert(s@.subrange(i as int, i + word@.len()) =~= rest@.subrange(
                0,
                word@.len() as int,
            ));
            return TransferFailure::TimedOut;
        }
        assert(s@.subrange(i as int, i + word@.len()) =~= rest@.subrange(0, word@.len() as int));
        i = i + 1;
    }
    TransferFailure::Failed
}

/// What an upload stores, a download gives back: if `stored` decodes to `data`
/// and its chunks are read in any order, putting them together and decoding
/// gives `data`.
pub proof fn law_upload_reads_back(
    data: Seq<u8>,
    stored: Seq<u8>,
    chunk: nat,
    parts: Seq<Part>,
)
    requires
        zstd_decoded(stored) == Some(data),
        chunk > 0,
        numbered(parts),
        forall|i: int|
            0 <= i < pieces(stored.len(), chunk) ==> #[trigger] arrived(parts, stored, chunk, i),
    ensures
        zstd_decoded(
            Seq::new(pieces(stored.len(), chunk), |i: int| part_at(parts, i)).flatten(),
        ) == Some(data),
{
    law_chunks_read_back(stored, chunk, parts);
}

/// A message that says `timed out` anywhere is a timeout, and only such a one.
pub proof fn law_timeout_words(before: Seq<char>, after: Seq<char>, message: Seq<char>)
    ensures
        has_word(before + "timed out"@ + after, "timed out"@),
        has_word(message, "timed out"@) ==> exists|a: Seq<char>, b: Seq<char>|
            message == #[trigger] (a + "timed out"@ + b),
{
    let word = "timed out"@;
    let s = before + word + after;
    let i = before.len() as int;
    assert(s.subrange(i, i + word.len()) =~= word);
    if has_word(message, word) {
        let k = choose|k: int|
            0 <= k <= message.len() - word.len() && #[trigger] message.subrange(
                k,
                k + word.len(),
            ) == word;
        assert(message =~= message.take(k) + message.subrange(k, k + word.len()) + message.skip(
            k + word.len(),
        ));
    }
}

} // verus!
