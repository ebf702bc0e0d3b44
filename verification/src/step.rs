//! One step of the light client, laid out on a circuit builder.

use vstd::arithmetic::power2::pow2;
use vstd::prelude::*;

use crate::bits::{bits_for, ceil_log2};
use crate::builder::{Circuit, CircuitBuilder};
use crate::layout::{
    byte_checks, byte_link, bytes_link, chain_gadgets, hash_bits, hash_sums, header_gadgets,
    input_checks, lemma_slots_fit, lemma_slots_next, prev_hash, prev_num, slots, step_circuit,
    targets_per_header, targets_per_step, HeaderSlots, SubchainView,
};
use crate::laws::step_is_sound;
use crate::meaning::{HeaderTrace, Semantics};
use crate::plain::{lengths_decide_the_fit, subchain_positions_are_indices};
use crate::target::{
    bool_ids, fresh, ids, AuthoritySetSignersTarget, BoolTarget, EncodedHeaderTarget,
    FinalizedBlockTarget, Target, BYTE_BITS, HASH_SIZE,
};

verus! {

/// A run of headers and the verified head block that they extend.
#[derive(Clone, Debug)]
pub struct VerifySubchainTarget {
    /// The hash of the head block, most significant bit of each byte first.
    pub head_block_hash: Vec<BoolTarget>,
    pub head_block_num: Target,
    /// The encoded headers, oldest first, each padded to the full header size.
    pub encoded_headers: Vec<Vec<Target>>,
    pub encoded_header_sizes: Vec<Target>,
}

impl View for VerifySubchainTarget {
    type V = SubchainView;

    open spec fn view(&self) -> SubchainView {
        SubchainView {
            head_hash: bool_ids(self.head_block_hash@),
            head_num: self.head_block_num@,
            headers: Seq::new(
                self.encoded_headers@.len(),
                |i: int| ids(self.encoded_headers@[i]@),
            ),
            sizes: ids(self.encoded_header_sizes@),
        }
    }
}

/// A circuit builder that can lay out a step. `P` is a signed precommit.
pub trait CircuitBuilderStep<P>: View<V = Circuit<P>> {
    /// Demands that the headers of the subchain extend its head block one after the other, each
    /// naming the hash of the block before as its parent and bearing the next block number, and
    /// that the precommits of the authority set justify the last of them.
    fn step(
        &mut self,
        subchain: VerifySubchainTarget,
        signed_precommits: Vec<P>,
        authority_set_signers: AuthoritySetSignersTarget,
    )
        requires
            subchain@.fits(old(self)@.config),
            old(self)@.num_targets + targets_per_step(old(self)@.config, subchain@.len())
                <= usize::MAX,
        ensures
            final(self)@ == step_circuit(
                old(self)@,
                subchain@,
                signed_precommits@,
                authority_set_signers,
            ),
            forall|sem: Semantics<P>, w: Seq<nat>|
                sem.order >= pow2(BYTE_BITS as nat) && #[trigger] final(self)@.accepts(sem, w)
                    ==> exists|t: Seq<HeaderTrace>|
                    #[trigger] subchain@.filled(w).verified(
                        sem,
                        old(self)@.config,
                        signed_precommits@,
                        authority_set_signers,
                        w,
                        t,
                    ),
    ;
}

impl<P> CircuitBuilder<P> {
    /// Whether a step over the subchain can be laid out: the subchain has the right shape, and
    /// there are enough target positions left.
    pub fn can_step(&self, subchain: &VerifySubchainTarget) -> (res: bool)
        ensures
            res <==> subchain@.fits(self@.config) && self@.num_targets + targets_per_step(
                self@.config,
                subchain@.len(),
            ) <= usize::MAX,
            res <==> {
                let config = self@.config;
                let n = subchain.encoded_headers@.len();
                &&& 1 <= n <= config.max_num_headers_per_step
                &&& subchain.encoded_header_sizes@.len() == n
                &&& forall|i: int|
                    0 <= i < n ==> (#[trigger] subchain.encoded_headers@[i])@.len()
                        == config.max_header_size
                &&& subchain.head_block_hash@.len() >= 256
                &&& self@.num_targets + n * (16 * config.max_header_size + 548) + 32 <= usize::MAX
            },
    {
        proof {
            lengths_decide_the_fit(self@.config, subchain@);
            subchain_positions_are_indices(*subchain);
        }
        let config = self.config();
        let n = subchain.encoded_headers.len();
        if n == 0 || n > config.max_num_headers_per_step {
            return false;
        }
        if subchain.encoded_header_sizes.len() != n {
            return false;
        }
        if subchain.head_block_hash.len() < HASH_SIZE * BYTE_BITS {
            return false;
        }
        let mut i: usize = 0;
        while i < n
            invariant
                i <= n,
                n == subchain.encoded_headers@.len(),
                config == self@.config,
                forall|j: int|
                    0 <= j < i ==> (#[trigger] subchain@.headers[j]).len()
                        == config.max_header_size,
            decreases n - i,
        {
            if subchain.encoded_headers[i].len() != config.max_header_size {
                assert(subchain@.headers[i as int].len() != config.max_header_size);
                return false;
            }
            i = i + 1;
        }
        assert forall|j: int| 0 <= j < n implies (#[trigger] subchain.encoded_headers@[j])@.len()
            == config.max_header_size by {
            assert(subchain@.headers[j].len() == config.max_header_size);
        }
        // Every header takes two targets per bit of its padding, and some for the two hashes and
        // the block numbers.
        let fixed: usize = HASH_SIZE + 2 * HASH_SIZE * BYTE_BITS + 4;
        let per_header: u128 = config.max_header_size as u128 * 16 + fixed as u128;
        assert(per_header == targets_per_header(config.max_header_size as nat));
        assert(per_header <= n * per_header) by (nonlinear_arith)
            requires
                n >= 1,
        ;
        assert(per_header == 16 * config.max_header_size + 548);
        assert(n * (16 * config.max_header_size + 548) == n * per_header);
        if per_header > usize::MAX as u128 {
            return false;
        }
        let all_headers: Option<usize> = n.checked_mul(per_header as usize);
        match all_headers {
            Some(targets) => targets <= usize::MAX - self.num_targets() && HASH_SIZE <= usize::MAX
                - self.num_targets() - targets,
            None => false,
        }
    }

    /// Checks that the bytes of the headers are bytes and that the header sizes take no more
    /// bits than the largest header size does.
    fn check_inputs(&mut self, subchain: &VerifySubchainTarget)
        requires
            subchain@.fits(old(self)@.config),
        ensures
            final(self)@ == old(self)@.extend(
                input_checks(old(self)@.config, subchain@, subchain@.len()),
                0,
            ),
    {
        let max_header_size = self.config().max_header_size;
        let size_bits = bits_for(max_header_size);
        let ghost config = old(self)@.config;
        let ghost before = self@;
        let mut i: usize = 0;
        assert(self@ =~= before.extend(input_checks(config, subchain@, 0), 0));
        while i < subchain.encoded_headers.len()
            invariant
                i <= subchain@.len(),
                subchain@.fits(config),
                config.max_header_size == max_header_size,
                size_bits == ceil_log2(max_header_size as nat),
                self@ == before.extend(input_checks(config, subchain@, i as nat), 0),
            decreases subchain.encoded_headers.len() - i,
        {
            let header = &subchain.encoded_headers[i];
            let ghost bytes = subchain@.headers[i as int];
            let ghost start = self@;
            let mut j: usize = 0;
            assert(self@ =~= start.extend(byte_checks::<P>(bytes).take(0), 0));
            while j < max_header_size
                invariant
                    j <= max_header_size,
                    header@.len() == max_header_size,
                    bytes == ids(header@),
                    self@ == start.extend(byte_checks::<P>(bytes).take(j as int), 0),
                decreases max_header_size - j,
            {
                self.range_check(header[j], BYTE_BITS);
                j = j + 1;
                assert(self@ =~= start.extend(byte_checks::<P>(bytes).take(j as int), 0));
            }
            self.range_check(subchain.encoded_header_sizes[i], size_bits);
            i = i + 1;
            assert(self@ =~= before.extend(input_checks(config, subchain@, i as nat), 0));
        }
    }

    /// Connects `expected` with the bits of `bytes`, most significant bit of each byte first.
    fn connect_bytes(&mut self, bytes: &Vec<Target>, expected: &Vec<BoolTarget>)
        requires
            expected@.len() >= bytes@.len() * BYTE_BITS,
            old(self)@.num_targets + bytes@.len() * BYTE_BITS <= usize::MAX,
        ensures
            final(self)@ == old(self)@.extend(
                bytes_link(
                    ids(bytes@),
                    bool_ids(expected@),
                    old(self)@.num_targets,
                    bytes@.len(),
                ),
                bytes@.len() * BYTE_BITS as nat,
            ),
    {
        let ghost before = self@;
        let ghost base = before.num_targets;
        let ghost byte_ids = ids(bytes@);
        let ghost bit_ids = bool_ids(expected@);
        let mut j: usize = 0;
        assert(self@ =~= before.extend(bytes_link(byte_ids, bit_ids, base, 0), 0));
        while j < bytes.len()
            invariant
                j <= bytes@.len(),
                expected@.len() >= bytes@.len() * BYTE_BITS,
                before.num_targets + bytes@.len() * BYTE_BITS <= usize::MAX,
                base == before.num_targets,
                byte_ids == ids(bytes@),
                bit_ids == bool_ids(expected@),
                self@ == before.extend(
                    bytes_link(byte_ids, bit_ids, base, j as nat),
                    j as nat * BYTE_BITS as nat,
                ),
            decreases bytes.len() - j,
        {
            let ghost start = self@;
            let ghost bit_base = start.num_targets;
            let ghost part = bit_ids.subrange(j * BYTE_BITS, (j + 1) * BYTE_BITS);
            let ghost link = byte_link::<P>(byte_ids[j as int], part, bit_base);
            let bits = self.split_le(bytes[j], BYTE_BITS);
            let mut k: usize = 0;
            assert(self@ =~= start.extend(link.take(1), BYTE_BITS as nat));
            while k < BYTE_BITS
                invariant
                    k <= BYTE_BITS,
                    j < bytes@.len(),
                    expected@.len() >= bytes@.len() * BYTE_BITS,
                    bytes@.len() * BYTE_BITS <= usize::MAX,
                    bit_ids == bool_ids(expected@),
                    part == bit_ids.subrange(j * BYTE_BITS, (j + 1) * BYTE_BITS),
                    link == byte_link::<P>(byte_ids[j as int], part, bit_base),
                    bits@.len() == BYTE_BITS,
                    bool_ids(bits@) == fresh(bit_base, BYTE_BITS as nat),
                    self@ == start.extend(link.take(1 + k), BYTE_BITS as nat),
                decreases BYTE_BITS - k,
            {
                let bit = bits[BYTE_BITS - 1 - k];
                assert(bit@ == bool_ids(bits@)[BYTE_BITS - 1 - k]);
                assert(expected@[j * BYTE_BITS + k]@ == part[k as int]);
                self.connect(expected[j * BYTE_BITS + k].target, bit.target);
                k = k + 1;
                assert(self@ =~= start.extend(link.take(1 + k), BYTE_BITS as nat));
            }
            j = j + 1;
            assert(link.take(1 + BYTE_BITS) =~= link);
            assert(self@ =~= before.extend(
                bytes_link(byte_ids, bit_ids, base, j as nat),
                j as nat * BYTE_BITS as nat,
            ));
        }
    }

    /// Demands that a header names the block with hash `prev_hash` as its parent and that its
    /// number comes after `prev_num`. Gives the digest and the number of the header.
    fn step_header(
        &mut self,
        header: &Vec<Target>,
        size: Target,
        prev_hash: &Vec<BoolTarget>,
        prev_num: Target,
    ) -> (res: (Vec<BoolTarget>, Target))
        requires
            header@.len() == old(self)@.config.max_header_size,
            prev_hash@.len() >= hash_bits(),
            old(self)@.num_targets + targets_per_header(header@.len()) <= usize::MAX,
        ensures
            ({
                let s = HeaderSlots { base: old(self)@.num_targets, size: header@.len() };
                &&& bool_ids(res.0@) == s.digest()
                &&& res.1@ == s.block_number()
                &&& final(self)@ == old(self)@.extend(
                    header_gadgets(ids(header@), size@, bool_ids(prev_hash@), prev_num@, s),
                    targets_per_header(header@.len()),
                )
            }),
    {
        let ghost s = HeaderSlots { base: self@.num_targets, size: header@.len() };
        let ghost before = self@;
        let header_bytes = header.clone();
        assert(ids(header_bytes@) =~= ids(header@));
        let decoded = self.decode_header(EncodedHeaderTarget { header_bytes, header_size: size });

        // The parent of the header is the block before.
        self.connect_bytes(&decoded.parent_hash, prev_hash);

        // The hash of the header, for the header after.
        let hash = self.make_blake2b_circuit(header.len() * BYTE_BITS, HASH_SIZE);
        self.connect_bytes(header, &hash.message);
        self.connect(hash.message_len, size);

        // The block numbers are sequential.
        let one = self.one();
        let expected_block_num = self.add(prev_num, one);
        self.connect(expected_block_num, decoded.block_number);

        assert(self@ =~= before.extend(
            header_gadgets(ids(header@), size@, bool_ids(prev_hash@), prev_num@, s),
            targets_per_header(header@.len()),
        ));
        (hash.digest, decoded.block_number)
    }

    /// The bytes of a hash that is given most significant bit of each byte first.
    fn sum_hash(&mut self, hash: &Vec<BoolTarget>) -> (bytes: Vec<Target>)
        requires
            hash@.len() == hash_bits(),
            old(self)@.num_targets + HASH_SIZE <= usize::MAX,
        ensures
            ids(bytes@) == fresh(old(self)@.num_targets, HASH_SIZE as nat),
            final(self)@ == old(self)@.extend(
                hash_sums(bool_ids(hash@), old(self)@.num_targets),
                HASH_SIZE as nat,
            ),
    {
        let ghost before = self@;
        let ghost sums = hash_sums::<P>(bool_ids(hash@), before.num_targets);
        let mut bytes: Vec<Target> = Vec::new();
        let mut j: usize = 0;
        assert(self@ =~= before.extend(sums.take(0), 0));
        while j < HASH_SIZE
            invariant
                j <= HASH_SIZE,
                hash@.len() == hash_bits(),
                before.num_targets + HASH_SIZE <= usize::MAX,
                sums == hash_sums::<P>(bool_ids(hash@), before.num_targets),
                ids(bytes@) == fresh(before.num_targets, j as nat),
                self@ == before.extend(sums.take(j as int), j as nat),
            decreases HASH_SIZE - j,
        {
            let ghost part = bool_ids(hash@).subrange(j * BYTE_BITS, (j + 1) * BYTE_BITS);
            let mut bits: Vec<BoolTarget> = Vec::new();
            let mut k: usize = 0;
            while k < BYTE_BITS
                invariant
                    j < HASH_SIZE,
                    k <= BYTE_BITS,
                    hash@.len() == hash_bits(),
                    part == bool_ids(hash@).subrange(j * BYTE_BITS, (j + 1) * BYTE_BITS),
                    bool_ids(bits@) == part.reverse().take(k as int),
                decreases BYTE_BITS - k,
            {
                let ghost taken = bool_ids(bits@);
                bits.push(hash[j * BYTE_BITS + (BYTE_BITS - 1 - k)]);
                k = k + 1;
                assert(bool_ids(bits@) =~= taken.push(part[BYTE_BITS - k]));
                assert(bool_ids(bits@) =~= part.reverse().take(k as int));
            }
            assert(bool_ids(bits@) =~= part.reverse());
            let ghost known = ids(bytes@);
            bytes.push(self.le_sum(bits));
            j = j + 1;
            assert(ids(bytes@) =~= known.push((before.num_targets + j - 1) as nat));
            assert(ids(bytes@) =~= fresh(before.num_targets, j as nat));
            assert(self@ =~= before.extend(sums.take(j as int), j as nat));
        }
        assert(sums.take(HASH_SIZE as int) =~= sums);
        bytes
    }
}

impl<P> CircuitBuilderStep<P> for CircuitBuilder<P> {
    fn step(
        &mut self,
        subchain: VerifySubchainTarget,
        signed_precommits: Vec<P>,
        authority_set_signers: AuthoritySetSignersTarget,
    ) {
        let ghost before = self@;
        let ghost config = before.config;
        let ghost base = before.num_targets;
        let ghost chain = subchain@;
        self.check_inputs(&subchain);
        let ghost checked = self@;

        // The block before the next header: the head block, then each header in turn.
        let VerifySubchainTarget {
            head_block_hash,
            head_block_num,
            encoded_headers,
            encoded_header_sizes,
        } = subchain;
        let mut last_hash: Vec<BoolTarget> = head_block_hash;
        let mut last_num: Target = head_block_num;
        let mut i: usize = 0;
        assert(self@ =~= checked.extend(chain_gadgets(config, chain, base, 0), 0));
        while i < encoded_headers.len()
            invariant
                i <= chain.len(),
                chain.fits(config),
                chain.len() == encoded_headers@.len(),
                forall|j: int|
                    0 <= j < chain.len() ==> chain.headers[j] == ids(
                        #[trigger] encoded_headers@[j]@,
                    ),
                chain.sizes == ids(encoded_header_sizes@),
                base + targets_per_step(config, chain.len()) <= usize::MAX,
                checked.config == config,
                checked.num_targets == base,
                bool_ids(last_hash@) == prev_hash(config, chain, base, i as nat),
                last_num@ == prev_num(config, chain, base, i as nat),
                slots(config, base, i as nat).base >= base,
                self@ == checked.extend(
                    chain_gadgets(config, chain, base, i as nat),
                    (slots(config, base, i as nat).base - base) as nat,
                ),
            decreases encoded_headers.len() - i,
        {
            proof {
                lemma_slots_fit(config, base, i as nat, chain.len());
                lemma_slots_next(config, base, i as nat);
                assert(last_hash@.len() == bool_ids(last_hash@).len());
                assert(chain.headers[i as int] == ids(encoded_headers@[i as int]@));
                assert(encoded_header_sizes@.len() == chain.sizes.len());
            }
            let (hash, num) = self.step_header(
                &encoded_headers[i],
                encoded_header_sizes[i],
                &last_hash,
                last_num,
            );
            last_hash = hash;
            last_num = num;
            i = i + 1;
            assert(self@ =~= checked.extend(
                chain_gadgets(config, chain, base, i as nat),
                (slots(config, base, i as nat).base - base) as nat,
            ));
        }

        proof {
            lemma_slots_fit(config, base, (chain.len() - 1) as nat, chain.len());
            lemma_slots_next(config, base, (chain.len() - 1) as nat);
            assert(last_hash@.len() == bool_ids(last_hash@).len());
        }
        let hash = self.sum_hash(&last_hash);
        self.verify_justification(
            signed_precommits,
            authority_set_signers,
            FinalizedBlockTarget { num: last_num, hash },
        );
        assert(self@ =~= step_circuit(
            before,
            chain,
            signed_precommits@,
            authority_set_signers,
        ));
        assert forall|sem: Semantics<P>, w: Seq<nat>|
            sem.order >= pow2(BYTE_BITS as nat) && #[trigger] self@.accepts(
                sem,
                w,
            ) implies exists|t: Seq<HeaderTrace>|
            #[trigger] chain.filled(w).verified(
                sem,
                config,
                signed_precommits@,
                authority_set_signers,
                w,
                t,
            ) by {
            let t = step_is_sound(
                sem,
                before,
                chain,
                signed_precommits@,
                authority_set_signers,
                w,
            );
        }
    }
}

} // verus!
