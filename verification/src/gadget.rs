//! The gadgets that a circuit is made of: each names the targets that it reads and the
//! targets that it brings into the circuit.

use vstd::prelude::*;

use crate::target::{
    bool_ids, ids, AuthoritySetSignersTarget, Blake2bTarget, BoolTarget, DecodedHeaderTarget,
    EncodedHeaderTarget, FinalizedBlockTarget, Target,
};

verus! {

/// One gadget of a circuit. `P` is a signed precommit, as the justification verifier takes it.
#[derive(Debug)]
pub enum Gadget<P> {
    /// `x` is below `2^n_log`.
    RangeCheck { x: Target, n_log: usize },
    /// `bits` are the bits of `integer`, least significant first.
    SplitLe { integer: Target, bits: Vec<BoolTarget> },
    /// `x` and `y` hold the same value.
    Connect { x: Target, y: Target },
    /// `one` holds 1.
    One { one: Target },
    /// `sum` holds `x + y`.
    Add { x: Target, y: Target, sum: Target },
    /// `sum` holds the number whose bits are `bits`, least significant first.
    LeSum { bits: Vec<BoolTarget>, sum: Target },
    /// `decoded` is what `encoded` decodes to.
    DecodeHeader { encoded: EncodedHeaderTarget, decoded: DecodedHeaderTarget },
    /// `hash.digest` is the BLAKE2b digest of `hash.message` up to `hash.message_len`.
    Blake2b { hash: Blake2bTarget },
    /// The precommits of the authority set justify `block`.
    VerifyJustification {
        signed_precommits: Vec<P>,
        authority_set_signers: AuthoritySetSignersTarget,
        block: FinalizedBlockTarget,
    },
}

/// A gadget with its targets by position.
#[verifier::ext_equal]
pub enum GadgetView<P> {
    RangeCheck { x: nat, n_log: nat },
    SplitLe { integer: nat, bits: Seq<nat> },
    Connect { x: nat, y: nat },
    One { one: nat },
    Add { x: nat, y: nat, sum: nat },
    LeSum { bits: Seq<nat>, sum: nat },
    DecodeHeader { bytes: Seq<nat>, size: nat, parent_hash: Seq<nat>, block_number: nat },
    Blake2b { message: Seq<nat>, message_len: nat, digest: Seq<nat> },
    VerifyJustification {
        precommits: Seq<P>,
        signers: AuthoritySetSignersTarget,
        num: nat,
        hash: Seq<nat>,
    },
}

impl<P> View for Gadget<P> {
    type V = GadgetView<P>;

    open spec fn view(&self) -> GadgetView<P> {
        match *self {
            Gadget::RangeCheck { x, n_log } => GadgetView::RangeCheck {
                x: x@,
                n_log: n_log as nat,
            },
            Gadget::SplitLe { integer, bits } => GadgetView::SplitLe {
                integer: integer@,
                bits: bool_ids(bits@),
            },
            Gadget::Connect { x, y } => GadgetView::Connect { x: x@, y: y@ },
            Gadget::One { one } => GadgetView::One { one: one@ },
            Gadget::Add { x, y, sum } => GadgetView::Add { x: x@, y: y@, sum: sum@ },
            Gadget::LeSum { bits, sum } => GadgetView::LeSum {
                bits: bool_ids(bits@),
                sum: sum@,
            },
            Gadget::DecodeHeader { encoded, decoded } => GadgetView::DecodeHeader {
                bytes: ids(encoded.header_bytes@),
                size: encoded.header_size@,
                parent_hash: ids(decoded.parent_hash@),
                block_number: decoded.block_number@,
            },
            Gadget::Blake2b { hash } => GadgetView::Blake2b {
                message: bool_ids(hash.message@),
                message_len: hash.message_len@,
                digest: bool_ids(hash.digest@),
            },
            Gadget::VerifyJustification {
                signed_precommits,
                authority_set_signers,
                block,
            } => GadgetView::VerifyJustification {
                precommits: signed_precommits@,
                signers: authority_set_signers,
                num: block.num@,
                hash: ids(block.hash@),
            },
        }
    }
}

} // verus!
