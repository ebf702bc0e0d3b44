//! A circuit builder that records, in order, the gadgets asked of it.

use vstd::prelude::*;

use crate::gadget::{Gadget, GadgetView};
use crate::target::{
    bool_ids, fresh, ids, AuthoritySetSignersTarget, Blake2bTarget, BoolTarget,
    DecodedHeaderTarget, EncodedHeaderTarget, FinalizedBlockTarget, Target, BYTE_BITS, HASH_SIZE,
};

verus! {

/// The sizes that a step is laid out for.
#[derive(Clone, Copy, Debug, PartialEq, Eq, Structural)]
pub struct StepConfig {
    /// The number of bytes to which every encoded header is padded.
    pub max_header_size: usize,
    /// The largest number of headers of one step.
    pub max_num_headers_per_step: usize,
}

/// A circuit under construction: its sizes, its gadgets and the number of its targets.
#[verifier::ext_equal]
pub struct Circuit<P> {
    pub config: StepConfig,
    pub gadgets: Seq<GadgetView<P>>,
    pub num_targets: nat,
}

impl<P> Circuit<P> {
    /// The circuit with one more gadget, which brings `n` more targets.
    pub open spec fn push(self, gadget: GadgetView<P>, n: nat) -> Circuit<P> {
        self.extend(seq![gadget], n)
    }

    /// The circuit with more gadgets, which bring `n` more targets.
    pub open spec fn extend(self, gadgets: Seq<GadgetView<P>>, n: nat) -> Circuit<P> {
        Circuit {
            config: self.config,
            gadgets: self.gadgets + gadgets,
            num_targets: self.num_targets + n,
        }
    }
}

/// Records a circuit, gadget by gadget.
pub struct CircuitBuilder<P> {
    config: StepConfig,
    gadgets: Vec<Gadget<P>>,
    num_targets: usize,
}

impl<P> View for CircuitBuilder<P> {
    type V = Circuit<P>;

    closed spec fn view(&self) -> Circuit<P> {
        Circuit {
            config: self.config,
            gadgets: Seq::new(self.gadgets@.len(), |i: int| self.gadgets@[i]@),
            num_targets: self.num_targets as nat,
        }
    }
}

impl<P> CircuitBuilder<P> {
    /// A circuit without gadgets or targets.
    pub fn new(config: StepConfig) -> (builder: Self)
        ensures
            builder@ == (Circuit::<P> { config, gadgets: Seq::empty(), num_targets: 0 }),
    {
        let builder: Self = CircuitBuilder { config, gadgets: Vec::new(), num_targets: 0 };
        assert(builder@.gadgets =~= Seq::empty());
        builder
    }

    /// The sizes that a step is laid out for.
    pub fn config(&self) -> (config: StepConfig)
        ensures
            config == self@.config,
    {
        self.config
    }

    /// The gadgets recorded so far, first to last.
    pub fn gadgets(&self) -> (gadgets: &Vec<Gadget<P>>)
        ensures
            gadgets@.len() == self@.gadgets.len(),
            forall|i: int| 0 <= i < gadgets@.len() ==> #[trigger] gadgets@[i]@ == self@.gadgets[i],
    {
        &self.gadgets
    }

    /// Gives up the builder for the gadgets that it recorded, first to last.
    pub fn into_gadgets(self) -> (gadgets: Vec<Gadget<P>>)
        ensures
            gadgets@.len() == self@.gadgets.len(),
            forall|i: int| 0 <= i < gadgets@.len() ==> #[trigger] gadgets@[i]@ == self@.gadgets[i],
    {
        self.gadgets
    }

    /// The number of targets handed out so far.
    pub fn num_targets(&self) -> (n: usize)
        ensures
            n == self@.num_targets,
    {
        self.num_targets
    }

    /// Records a gadget.
    fn record(&mut self, gadget: Gadget<P>)
        ensures
            final(self)@ == old(self)@.push(gadget@, 0),
    {
        self.gadgets.push(gadget);
        assert(self@ =~= old(self)@.push(gadget@, 0));
    }

    /// A new target, on which no gadget has a say yet.
    pub fn add_virtual_target(&mut self) -> (target: Target)
        requires
            old(self)@.num_targets < usize::MAX,
        ensures
            target@ == old(self)@.num_targets,
            final(self)@ == old(self)@.extend(Seq::empty(), 1),
    {
        let target = Target { index: self.num_targets };
        self.num_targets = self.num_targets + 1;
        assert(self@ =~= old(self)@.extend(Seq::empty(), 1));
        target
    }

    /// A new boolean target, on which no gadget has a say yet.
    pub fn add_virtual_bool_target(&mut self) -> (bit: BoolTarget)
        requires
            old(self)@.num_targets < usize::MAX,
        ensures
            bit@ == old(self)@.num_targets,
            final(self)@ == old(self)@.extend(Seq::empty(), 1),
    {
        BoolTarget { target: self.add_virtual_target() }
    }

    /// `n` new targets.
    fn add_virtual_targets(&mut self, n: usize) -> (targets: Vec<Target>)
        requires
            old(self)@.num_targets + n <= usize::MAX,
        ensures
            ids(targets@) == fresh(old(self)@.num_targets, n as nat),
            final(self)@ == old(self)@.extend(Seq::empty(), n as nat),
    {
        let mut targets: Vec<Target> = Vec::new();
        let mut i: usize = 0;
        assert(self@ =~= old(self)@.extend(Seq::empty(), 0));
        while i < n
            invariant
                i <= n,
                old(self)@.num_targets + n <= usize::MAX,
                ids(targets@) == fresh(old(self)@.num_targets, i as nat),
                self@ == old(self)@.extend(Seq::empty(), i as nat),
            decreases n - i,
        {
            let ghost before = ids(targets@);
            targets.push(self.add_virtual_target());
            i = i + 1;
            assert(self@ =~= old(self)@.extend(Seq::empty(), i as nat));
            assert(ids(targets@) =~= before.push((old(self)@.num_targets + i - 1) as nat));
            assert(ids(targets@) =~= fresh(old(self)@.num_targets, i as nat));
        }
        targets
    }

    /// `n` new boolean targets.
    fn add_virtual_bool_targets(&mut self, n: usize) -> (bits: Vec<BoolTarget>)
        requires
            old(self)@.num_targets + n <= usize::MAX,
        ensures
            bool_ids(bits@) == fresh(old(self)@.num_targets, n as nat),
            final(self)@ == old(self)@.extend(Seq::empty(), n as nat),
    {
        let mut bits: Vec<BoolTarget> = Vec::new();
        let mut i: usize = 0;
        assert(self@ =~= old(self)@.extend(Seq::empty(), 0));
        while i < n
            invariant
                i <= n,
                old(self)@.num_targets + n <= usize::MAX,
                bool_ids(bits@) == fresh(old(self)@.num_targets, i as nat),
                self@ == old(self)@.extend(Seq::empty(), i as nat),
            decreases n - i,
        {
            let ghost before = bool_ids(bits@);
            bits.push(self.add_virtual_bool_target());
            i = i + 1;
            assert(self@ =~= old(self)@.extend(Seq::empty(), i as nat));
            assert(bool_ids(bits@) =~= before.push((old(self)@.num_targets + i - 1) as nat));
            assert(bool_ids(bits@) =~= fresh(old(self)@.num_targets, i as nat));
        }
        bits
    }

    /// Checks that `x` is below `2^n_log`.
    pub fn range_check(&mut self, x: Target, n_log: usize)
        ensures
            final(self)@ == old(self)@.push(
                GadgetView::RangeCheck { x: x@, n_log: n_log as nat },
                0,
            ),
    {
        self.record(Gadget::RangeCheck { x, n_log });
    }

    /// Splits `integer` into `num_bits` bits, least significant first.
    pub fn split_le(&mut self, integer: Target, num_bits: usize) -> (bits: Vec<BoolTarget>)
        requires
            old(self)@.num_targets + num_bits <= usize::MAX,
        ensures
            bits@.len() == num_bits,
            bool_ids(bits@) == fresh(old(self)@.num_targets, num_bits as nat),
            forall|k: int|
                0 <= k < num_bits ==> (#[trigger] bits@[k]).target.index == old(self)@.num_targets
                    + k,
            final(self)@ == old(self)@.push(
                GadgetView::SplitLe { integer: integer@, bits: bool_ids(bits@) },
                num_bits as nat,
            ),
    {
        let bits = self.add_virtual_bool_targets(num_bits);
        let recorded = bits.clone();
        assert(bool_ids(recorded@) =~= bool_ids(bits@));
        assert(bits@.len() == bool_ids(bits@).len());
        assert forall|k: int| 0 <= k < num_bits implies (#[trigger] bits@[k]).target.index
            == old(self)@.num_targets + k by {
            assert(bool_ids(bits@)[k] == old(self)@.num_targets + k);
        }
        self.record(Gadget::SplitLe { integer, bits: recorded });
        assert(self@ =~= old(self)@.push(
            GadgetView::SplitLe { integer: integer@, bits: bool_ids(bits@) },
            num_bits as nat,
        ));
        bits
    }

    /// Checks that `x` and `y` hold the same value.
    pub fn connect(&mut self, x: Target, y: Target)
        ensures
            final(self)@ == old(self)@.push(GadgetView::Connect { x: x@, y: y@ }, 0),
    {
        self.record(Gadget::Connect { x, y });
    }

    /// A target that holds 1.
    pub fn one(&mut self) -> (one: Target)
        requires
            old(self)@.num_targets < usize::MAX,
        ensures
            one@ == old(self)@.num_targets,
            final(self)@ == old(self)@.push(GadgetView::One { one: one@ }, 1),
    {
        let one = self.add_virtual_target();
        self.record(Gadget::One { one });
        assert(self@ =~= old(self)@.push(GadgetView::One { one: one@ }, 1));
        one
    }

    /// A target that holds `x + y`.
    pub fn add(&mut self, x: Target, y: Target) -> (sum: Target)
        requires
            old(self)@.num_targets < usize::MAX,
        ensures
            sum@ == old(self)@.num_targets,
            final(self)@ == old(self)@.push(GadgetView::Add { x: x@, y: y@, sum: sum@ }, 1),
    {
        let sum = self.add_virtual_target();
        self.record(Gadget::Add { x, y, sum });
        assert(self@ =~= old(self)@.push(GadgetView::Add { x: x@, y: y@, sum: sum@ }, 1));
        sum
    }

    /// A target that holds the number with the given bits, least significant first.
    pub fn le_sum(&mut self, bits: Vec<BoolTarget>) -> (sum: Target)
        requires
            old(self)@.num_targets < usize::MAX,
        ensures
            sum@ == old(self)@.num_targets,
            final(self)@ == old(self)@.push(
                GadgetView::LeSum { bits: bool_ids(bits@), sum: sum@ },
                1,
            ),
    {
        let sum = self.add_virtual_target();
        self.record(Gadget::LeSum { bits, sum });
        assert(self@ =~= old(self)@.push(
            GadgetView::LeSum { bits: bool_ids(bits@), sum: sum@ },
            1,
        ));
        sum
    }

    /// The parent hash and the block number of an encoded header.
    pub fn decode_header(&mut self, encoded: EncodedHeaderTarget) -> (decoded: DecodedHeaderTarget)
        requires
            old(self)@.num_targets + HASH_SIZE + 1 <= usize::MAX,
        ensures
            decoded.parent_hash@.len() == HASH_SIZE,
            ids(decoded.parent_hash@) == fresh(old(self)@.num_targets, HASH_SIZE as nat),
            forall|j: int|
                0 <= j < HASH_SIZE ==> (#[trigger] decoded.parent_hash@[j]).index == old(
                    self,
                )@.num_targets + j,
            decoded.block_number@ == old(self)@.num_targets + HASH_SIZE,
            final(self)@ == old(self)@.push(
                GadgetView::DecodeHeader {
                    bytes: ids(encoded.header_bytes@),
                    size: encoded.header_size@,
                    parent_hash: ids(decoded.parent_hash@),
                    block_number: decoded.block_number@,
                },
                (HASH_SIZE + 1) as nat,
            ),
    {
        let parent_hash = self.add_virtual_targets(HASH_SIZE);
        let block_number = self.add_virtual_target();
        let decoded = DecodedHeaderTarget { parent_hash: parent_hash.clone(), block_number };
        assert(ids(decoded.parent_hash@) =~= ids(parent_hash@));
        assert(decoded.parent_hash@.len() == ids(decoded.parent_hash@).len());
        assert forall|j: int| 0 <= j < HASH_SIZE implies (
        #[trigger] decoded.parent_hash@[j]).index == old(self)@.num_targets + j by {
            assert(ids(decoded.parent_hash@)[j] == old(self)@.num_targets + j);
        }
        let gadget = Gadget::DecodeHeader {
            encoded,
            decoded: DecodedHeaderTarget { parent_hash, block_number },
        };
        self.record(gadget);
        assert(self@ =~= old(self)@.push(gadget@, (HASH_SIZE + 1) as nat));
        decoded
    }

    /// A BLAKE2b circuit for messages of up to `max_num_bits` bits. The message and its length
    /// are left to the caller to connect.
    pub fn make_blake2b_circuit(&mut self, max_num_bits: usize, digest_bytes: usize) -> (hash:
        Blake2bTarget)
        requires
            old(self)@.num_targets + max_num_bits + 1 + digest_bytes * BYTE_BITS <= usize::MAX,
        ensures
            hash.message@.len() == max_num_bits,
            bool_ids(hash.message@) == fresh(old(self)@.num_targets, max_num_bits as nat),
            forall|k: int|
                0 <= k < max_num_bits ==> (#[trigger] hash.message@[k]).target.index == old(
                    self,
                )@.num_targets + k,
            hash.message_len@ == old(self)@.num_targets + max_num_bits,
            hash.digest@.len() == digest_bytes * BYTE_BITS,
            bool_ids(hash.digest@) == fresh(
                old(self)@.num_targets + max_num_bits as nat + 1,
                (digest_bytes * BYTE_BITS) as nat,
            ),
            forall|k: int|
                0 <= k < digest_bytes * BYTE_BITS ==> (#[trigger] hash.digest@[k]).target.index
                    == old(self)@.num_targets + max_num_bits + 1 + k,
            final(self)@ == old(self)@.push(
                GadgetView::Blake2b {
                    message: bool_ids(hash.message@),
                    message_len: hash.message_len@,
                    digest: bool_ids(hash.digest@),
                },
                (max_num_bits + 1 + digest_bytes * BYTE_BITS) as nat,
            ),
    {
        let message = self.add_virtual_bool_targets(max_num_bits);
        let message_len = self.add_virtual_target();
        let digest = self.add_virtual_bool_targets(digest_bytes * BYTE_BITS);
        let hash = Blake2bTarget { message: message.clone(), message_len, digest: digest.clone() };
        assert(bool_ids(hash.message@) =~= bool_ids(message@));
        assert(bool_ids(hash.digest@) =~= bool_ids(digest@));
        assert(hash.message@.len() == bool_ids(hash.message@).len());
        assert(hash.digest@.len() == bool_ids(hash.digest@).len());
        assert forall|k: int| 0 <= k < max_num_bits implies (
        #[trigger] hash.message@[k]).target.index == old(self)@.num_targets + k by {
            assert(bool_ids(hash.message@)[k] == old(self)@.num_targets + k);
        }
        assert forall|k: int| 0 <= k < digest_bytes * BYTE_BITS implies (
        #[trigger] hash.digest@[k]).target.index == old(self)@.num_targets + max_num_bits + 1
            + k by {
            assert(bool_ids(hash.digest@)[k] == old(self)@.num_targets + max_num_bits + 1 + k);
        }
        let gadget = Gadget::Blake2b { hash: Blake2bTarget { message, message_len, digest } };
        self.record(gadget);
        assert(self@ =~= old(self)@.push(
            gadget@,
            (max_num_bits + 1 + digest_bytes * BYTE_BITS) as nat,
        ));
        hash
    }

    /// Checks that the precommits of the authority set justify `block`.
    pub fn verify_justification(
        &mut self,
        signed_precommits: Vec<P>,
        authority_set_signers: AuthoritySetSignersTarget,
        block: FinalizedBlockTarget,
    )
        ensures
            final(self)@ == old(self)@.push(
                GadgetView::VerifyJustification {
                    precommits: signed_precommits@,
                    signers: authority_set_signers,
                    num: block.num@,
                    hash: ids(block.hash@),
                },
                0,
            ),
    {
        self.record(
            Gadget::VerifyJustification { signed_precommits, authority_set_signers, block },
        );
    }
}

} // verus!
