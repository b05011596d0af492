//! Which pool a request belongs to.
use vstd::prelude::*;

use crate::pool::PoolId;
use crate::tables::{byte_views, holds_bytes};

verus! {

/// The proof modes of the network protocol, numbered from 0 in this order.
#[derive(Copy, Clone, PartialEq, Eq, Debug, Structural)]
pub enum ProofMode {
    UnspecifiedProofMode,
    Core,
    Compressed,
    Plonk,
    Groth16,
}

impl ProofMode {
    /// The mode that a protocol number stands for.
    pub open spec fn of_number(mode: i32) -> Option<ProofMode> {
        if mode == 0 {
            Some(ProofMode::UnspecifiedProofMode)
        } else if mode == 1 {
            Some(ProofMode::Core)
        } else if mode == 2 {
            Some(ProofMode::Compressed)
        } else if mode == 3 {
            Some(ProofMode::Plonk)
        } else if mode == 4 {
            Some(ProofMode::Groth16)
        } else {
            None
        }
    }

    /// The mode that a protocol number stands for.
    pub fn from_number(mode: i32) -> (m: Option<ProofMode>)
        ensures
            m == ProofMode::of_number(mode),
    {
        match mode {
            0 => Some(ProofMode::UnspecifiedProofMode),
            1 => Some(ProofMode::Core),
            2 => Some(ProofMode::Compressed),
            3 => Some(ProofMode::Plonk),
            4 => Some(ProofMode::Groth16),
            _ => None,
        }
    }
}

/// The verifying-key hashes that decide a pool.
#[verifier::ext_equal]
pub struct ClassifierView {
    pub range_vks: Set<Seq<u8>>,
    pub agg_vks: Set<Seq<u8>>,
}

impl ClassifierView {
    /// The pool that a mode alone decides.
    pub open spec fn pool_of_mode(mode: i32) -> Option<PoolId> {
        match ProofMode::of_number(mode) {
            Some(ProofMode::Compressed) => Some(PoolId::Range),
            Some(ProofMode::Plonk) => Some(PoolId::Agg),
            Some(ProofMode::Groth16) => Some(PoolId::Agg),
            _ => None,
        }
    }

    /// The pool of a request: the key hash decides first, then the mode.
    pub open spec fn pool_of(self, mode: i32, vk_hash: Seq<u8>) -> Option<PoolId> {
        if self.range_vks.contains(vk_hash) {
            Some(PoolId::Range)
        } else if self.agg_vks.contains(vk_hash) {
            Some(PoolId::Agg)
        } else {
            Self::pool_of_mode(mode)
        }
    }
}

/// Maps a request to a pool by `vk_hash` (primary) then proof `mode`
/// (fallback). `None` means unclassified: passed through ungated.
///
/// The mode path takes range proofs to be Compressed and aggregation proofs
/// not to be. A deployment whose aggregation proofs are Compressed must list
/// their key hashes.
pub struct Classifier {
    range_vks: Vec<Vec<u8>>,
    agg_vks: Vec<Vec<u8>>,
}

impl View for Classifier {
    type V = ClassifierView;

    closed spec fn view(&self) -> ClassifierView {
        ClassifierView {
            range_vks: byte_views(self.range_vks@).to_set(),
            agg_vks: byte_views(self.agg_vks@).to_set(),
        }
    }
}

impl Classifier {
    pub fn new(range_vks: Vec<Vec<u8>>, agg_vks: Vec<Vec<u8>>) -> (c: Self)
        ensures
            c@ == (ClassifierView {
                range_vks: byte_views(range_vks@).to_set(),
                agg_vks: byte_views(agg_vks@).to_set(),
            }),
    {
        Classifier { range_vks, agg_vks }
    }

    /// The key hash first, then the mode: Compressed is Range, Plonk and
    /// Groth16 are Agg, anything else is ungated.
    pub fn classify(&self, mode: i32, vk_hash: &[u8]) -> (p: Option<PoolId>)
        ensures
            p == self@.pool_of(mode, vk_hash@),
    {
        if holds_bytes(&self.range_vks, vk_hash) {
            return Some(PoolId::Range);
        }
        if holds_bytes(&self.agg_vks, vk_hash) {
            return Some(PoolId::Agg);
        }
        match ProofMode::from_number(mode) {
            Some(ProofMode::Compressed) => Some(PoolId::Range),
            Some(ProofMode::Plonk) => Some(PoolId::Agg),
            Some(ProofMode::Groth16) => Some(PoolId::Agg),
            _ => None,
        }
    }
}

/// A listed key hash decides the pool, whatever the mode says, and the range
/// list comes first. Without a listed hash, compressed proofs are range proofs,
/// Plonk and Groth16 proofs are aggregation proofs, and nothing else is gated.
pub proof fn law_classification(c: ClassifierView, mode: i32, vk_hash: Seq<u8>)
    ensures
        c.range_vks.contains(vk_hash) ==> c.pool_of(mode, vk_hash) == Some(PoolId::Range),
        !c.range_vks.contains(vk_hash) && c.agg_vks.contains(vk_hash) ==> c.pool_of(mode, vk_hash)
            == Some(PoolId::Agg),
        !c.range_vks.contains(vk_hash) && !c.agg_vks.contains(vk_hash) ==> {
            &&& c.pool_of(mode, vk_hash) == Some(PoolId::Range) <==> mode == 2
            &&& c.pool_of(mode, vk_hash) == Some(PoolId::Agg) <==> mode == 3 || mode == 4
        },
{
}

/// Five numbers stand for proof modes, each for its own.
pub proof fn law_mode_numbers(mode: i32)
    ensures
        ProofMode::of_number(mode) is Some <==> 0 <= mode <= 4,
        ProofMode::of_number(mode) matches Some(m) ==> {
            &&& m is UnspecifiedProofMode <==> mode == 0
            &&& m is Core <==> mode == 1
            &&& m is Compressed <==> mode == 2
            &&& m is Plonk <==> mode == 3
            &&& m is Groth16 <==> mode == 4
        },
{
}

} // verus!
