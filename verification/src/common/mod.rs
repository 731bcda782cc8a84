//! Identifiers, reserved values and the error kinds shared by the whole crate.

pub mod checksum;
pub mod ende;
pub mod engines;

use vstd::prelude::*;
use crate::basic::ord_key::{
    bytes_lt, lemma_bytes_lt_asymmetric, lemma_bytes_lt_irreflexive, lemma_bytes_lt_total,
    lemma_bytes_lt_transitive,
    rank_bytes, Rank,
};

verus! {

/// Identifier of a branch. Allocated strictly increasing, never reused.
pub type BranchID = u64;

/// Identifier of a version. Allocated strictly increasing, never reused.
pub type VersionID = u64;

/// Raw bytes of a key.
pub type RawKey = Vec<u8>;

/// Raw bytes of a value.
pub type RawValue = Vec<u8>;

/// The sentinel identifier that stands for "none".
pub const NULL: u64 = 0;

/// Width in bytes of the prefix that sets one map apart from the others in
/// the backend.
pub const PREFIX_SIZE: usize = 8;

/// A prefix as a number.
pub type Pre = u64;

/// A prefix as it stands before every key of its map.
pub type PreBytes = [u8; 8];

/// Number of identifiers at the bottom of every identifier space that are never handed out.
pub const RESERVED_ID_CNT: u64 = 256;

/// Identifier of the branch that exists in every fresh store.
pub const INITIAL_BRANCH_ID: BranchID = 1;

/// Number of versions that `prune` keeps when the caller names no number.
pub const RESERVED_VERSION_NUM_DEFAULT: usize = 10;

/// Name of the branch that exists in every fresh store.
pub const INITIAL_BRANCH_NAME: [u8; 4] = [109, 97, 105, 110];

/// The name of the initial branch as a sequence of bytes.
pub open spec fn initial_branch_name() -> Seq<u8> {
    seq![109u8, 97u8, 105u8, 110u8]
}

/// Name of a branch, as the caller wrote it.
#[derive(Clone, Copy, Debug)]
pub struct BranchName<'a>(pub &'a [u8]);

/// Name of the branch that a new branch starts from.
#[derive(Clone, Copy, Debug)]
pub struct ParentBranchName<'a>(pub &'a [u8]);

/// Name of a version, as the caller wrote it.
#[derive(Clone, Copy, Debug)]
pub struct VersionName<'a>(pub &'a [u8]);

/// Name of a branch, owned.
#[derive(Clone, Debug)]
pub struct BranchNameOwned(pub Vec<u8>);

/// Name of a version, owned.
#[derive(Clone, Debug)]
pub struct VersionNameOwned(pub Vec<u8>);

/// The initial branch's name in a vector of its own.
pub fn initial_branch_name_owned() -> (r: Vec<u8>)
    ensures
        r@ == initial_branch_name(),
{
    let mut r: Vec<u8> = Vec::new();
    r.push(INITIAL_BRANCH_NAME[0]);
    r.push(INITIAL_BRANCH_NAME[1]);
    r.push(INITIAL_BRANCH_NAME[2]);
    r.push(INITIAL_BRANCH_NAME[3]);
    assert(r@ =~= initial_branch_name());
    r
}

/// One end of a range of keys.
#[derive(Clone, Copy, Debug)]
pub enum KeyBound<'a> {
    /// The range reaches this key and holds it.
    Included(&'a [u8]),
    /// The range reaches this key and does not hold it.
    Excluded(&'a [u8]),
    /// The range has no end on this side.
    Unbounded,
}

/// Whether key `k` lies within the lower bound.
pub open spec fn above(k: Seq<u8>, lower: KeyBound<'_>) -> bool {
    match lower {
        KeyBound::Included(l) => !bytes_lt(k, l@),
        KeyBound::Excluded(l) => bytes_lt(l@, k),
        KeyBound::Unbounded => true,
    }
}

/// Whether key `k` lies within the upper bound.
pub open spec fn below(k: Seq<u8>, upper: KeyBound<'_>) -> bool {
    match upper {
        KeyBound::Included(h) => !bytes_lt(h@, k),
        KeyBound::Excluded(h) => bytes_lt(k, h@),
        KeyBound::Unbounded => true,
    }
}

/// Whether key `k` lies between the two bounds.
pub open spec fn within(k: Seq<u8>, lower: KeyBound<'_>, upper: KeyBound<'_>) -> bool {
    above(k, lower) && below(k, upper)
}

/// Whether the bounds are malformed: they name a lower end that lies beyond
/// the upper end, or one key as both ends and shut it out at both.
pub open spec fn malformed(lower: KeyBound<'_>, upper: KeyBound<'_>) -> bool {
    match (lower, upper) {
        (KeyBound::Included(l), KeyBound::Included(h)) => bytes_lt(h@, l@),
        (KeyBound::Included(l), KeyBound::Excluded(h)) => bytes_lt(h@, l@),
        (KeyBound::Excluded(l), KeyBound::Included(h)) => bytes_lt(h@, l@),
        (KeyBound::Excluded(l), KeyBound::Excluded(h)) => !bytes_lt(l@, h@),
        _ => false,
    }
}

/// Refuses malformed bounds.
pub fn check_bounds(lower: KeyBound<'_>, upper: KeyBound<'_>) -> (r: Result<(), VsError>)
    ensures
        r == (if malformed(lower, upper) {
            Err(VsError::InvalidArg)
        } else {
            Ok(())
        }),
{
    let (l, lower_in) = match lower {
        KeyBound::Included(l) => (l, true),
        KeyBound::Excluded(l) => (l, false),
        KeyBound::Unbounded => {
            return Ok(());
        },
    };
    let (h, upper_in) = match upper {
        KeyBound::Included(h) => (h, true),
        KeyBound::Excluded(h) => (h, false),
        KeyBound::Unbounded => {
            return Ok(());
        },
    };
    let well_formed = match rank_bytes(l, h) {
        Rank::Before => true,
        Rank::Same => lower_in || upper_in,
        Rank::After => false,
    };
    proof {
        lemma_bytes_lt_irreflexive(l@);
        if bytes_lt(l@, h@) {
            lemma_bytes_lt_asymmetric(l@, h@);
        }
    }
    if well_formed {
        Ok(())
    } else {
        Err(VsError::InvalidArg)
    }
}

/// No key lies within malformed bounds.
pub proof fn law_malformed_bounds_hold_nothing(lower: KeyBound<'_>, upper: KeyBound<'_>, k: Seq<u8>)
    requires
        malformed(lower, upper),
    ensures
        !within(k, lower, upper),
{
    if within(k, lower, upper) {
        match (lower, upper) {
            (KeyBound::Included(l), KeyBound::Included(h)) => {
                // h < l <= k <= h
                lemma_bytes_lt_total(k, l@);
                if k != l@ {
                    lemma_bytes_lt_transitive(h@, l@, k);
                }
            },
            (KeyBound::Included(l), KeyBound::Excluded(h)) => {
                // h < l <= k < h
                lemma_bytes_lt_total(k, l@);
                if k != l@ {
                    lemma_bytes_lt_transitive(h@, l@, k);
                }
                lemma_bytes_lt_asymmetric(k, h@);
            },
            (KeyBound::Excluded(l), KeyBound::Included(h)) => {
                // h < l < k <= h
                lemma_bytes_lt_transitive(h@, l@, k);
            },
            (KeyBound::Excluded(l), KeyBound::Excluded(h)) => {
                lemma_bytes_lt_transitive(l@, k, h@);
            },
            _ => {},
        }
    }
}

/// Why an operation was refused.
#[derive(Clone, Copy, Debug, PartialEq, Eq, Structural)]
pub enum VsError {
    /// The branch identifier or name is unknown.
    BranchNotFound,
    /// The version identifier or name is unknown, or the version is not on the branch asked for.
    VersionNotFound,
    /// A branch of that name exists already.
    BranchExists,
    /// A version of that name exists already.
    VersionExists,
    /// The branch has no version yet, so there is nothing to write to.
    NoCurrentVersion,
    /// The target branch has moved on since the source branch left it.
    MergeUnsafe,
    /// `prune` was asked to keep zero versions.
    PruneZero,
    /// An argument is malformed, or asks for what must not be done.
    InvalidArg,
    /// The backend cannot go on: no identifier is left to hand out.
    BackendFailure,
}

} // verus!
