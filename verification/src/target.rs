//! Targets: the places of a circuit that hold a field element, and the groups of targets
//! that the gadgets take and give.

use vstd::prelude::*;

verus! {

/// The number of bytes of a block hash.
pub const HASH_SIZE: usize = 32;

/// The number of bits of a byte.
pub const BYTE_BITS: usize = 8;

/// A place in the circuit that holds one field element.
#[derive(Clone, Copy, Debug, PartialEq, Eq, Structural)]
pub struct Target {
    /// The position of the target in the order in which its builder handed targets out.
    pub index: usize,
}

impl View for Target {
    type V = nat;

    open spec fn view(&self) -> nat {
        self.index as nat
    }
}

/// A target that is meant to hold only 0 or 1.
#[derive(Clone, Copy, Debug, PartialEq, Eq, Structural)]
pub struct BoolTarget {
    pub target: Target,
}

impl View for BoolTarget {
    type V = nat;

    open spec fn view(&self) -> nat {
        self.target@
    }
}

/// The positions of a sequence of targets.
pub open spec fn ids(targets: Seq<Target>) -> Seq<nat> {
    Seq::new(targets.len(), |i: int| targets[i]@)
}

/// The positions of a sequence of boolean targets.
pub open spec fn bool_ids(bits: Seq<BoolTarget>) -> Seq<nat> {
    Seq::new(bits.len(), |i: int| bits[i]@)
}

/// The `n` positions that start at `base`.
pub open spec fn fresh(base: nat, n: nat) -> Seq<nat> {
    Seq::new(n, |i: int| (base + i) as nat)
}

/// A header as the chain encodes it, padded to a fixed number of bytes.
#[derive(Debug)]
pub struct EncodedHeaderTarget {
    /// One target per byte, padding after the encoded header included.
    pub header_bytes: Vec<Target>,
    /// The number of bytes that the encoded header takes.
    pub header_size: Target,
}

/// What the header decoder gives of a header.
#[derive(Debug)]
pub struct DecodedHeaderTarget {
    /// The hash of the parent block, one target per byte.
    pub parent_hash: Vec<Target>,
    pub block_number: Target,
}

/// The inputs and the output of one BLAKE2b circuit.
#[derive(Debug)]
pub struct Blake2bTarget {
    /// The bits of the padded message, most significant bit of each byte first.
    pub message: Vec<BoolTarget>,
    /// The number of bytes of the message that are hashed.
    pub message_len: Target,
    /// The bits of the digest, most significant bit of each byte first.
    pub digest: Vec<BoolTarget>,
}

/// The authority set that has to sign a finalized block.
#[derive(Clone, Debug)]
pub struct AuthoritySetSignersTarget {
    /// The bits of the public key of each authority.
    pub pub_keys: Vec<Vec<BoolTarget>>,
    /// The commitment to the public keys, one target per byte.
    pub commitment: Vec<Target>,
    pub set_id: Target,
}

/// The block that a justification finalizes.
#[derive(Debug)]
pub struct FinalizedBlockTarget {
    pub num: Target,
    /// The hash of the block, one target per byte.
    pub hash: Vec<Target>,
}

} // verus!
