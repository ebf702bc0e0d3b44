//! Where a step puts its gadgets and targets.
//!
//! All positions are counted from `base`, the number of targets that the circuit has before
//! the step. Every header takes the same number of targets, laid out in the same way.

use vstd::prelude::*;

use crate::bits::ceil_log2;
use crate::builder::{Circuit, StepConfig};
use crate::gadget::GadgetView;
use crate::target::{fresh, AuthoritySetSignersTarget, BYTE_BITS, HASH_SIZE};

verus! {

/// The number of bits of a block hash.
pub open spec fn hash_bits() -> nat {
    (HASH_SIZE * BYTE_BITS) as nat
}

/// The targets of a subchain, by position.
#[verifier::ext_equal]
pub struct SubchainView {
    pub head_hash: Seq<nat>,
    pub head_num: nat,
    pub headers: Seq<Seq<nat>>,
    pub sizes: Seq<nat>,
}

impl SubchainView {
    /// The number of headers.
    pub open spec fn len(self) -> nat {
        self.headers.len()
    }

    /// The subchain has the shape that a step of the given sizes takes: at least one header and
    /// not too many, each padded to the full size and with a size of its own, and every bit of
    /// the hash of the head block.
    pub open spec fn fits(self, config: StepConfig) -> bool {
        &&& 0 < self.len() <= config.max_num_headers_per_step
        &&& self.sizes.len() == self.len()
        &&& forall|i: int|
            0 <= i < self.len() ==> (#[trigger] self.headers[i]).len() == config.max_header_size
        &&& self.head_hash.len() >= hash_bits()
    }
}

/// The targets of one header of a step, by position. The header's targets start at `base`;
/// headers are padded to `size` bytes.
#[verifier::ext_equal]
pub struct HeaderSlots {
    pub base: nat,
    pub size: nat,
}

impl HeaderSlots {
    /// The bytes of the decoded parent hash.
    pub open spec fn parent_hash(self) -> Seq<nat> {
        fresh(self.base, HASH_SIZE as nat)
    }

    /// The decoded block number.
    pub open spec fn block_number(self) -> nat {
        self.base + HASH_SIZE as nat
    }

    /// The first bit of the parent hash.
    pub open spec fn parent_hash_bits(self) -> nat {
        self.block_number() + 1
    }

    /// The bits of the hashed message.
    pub open spec fn message(self) -> Seq<nat> {
        fresh(self.parent_hash_bits() + hash_bits(), self.size * BYTE_BITS as nat)
    }

    /// The length of the hashed message.
    pub open spec fn message_len(self) -> nat {
        self.parent_hash_bits() + hash_bits() + self.size * BYTE_BITS as nat
    }

    /// The bits of the digest of the header.
    pub open spec fn digest(self) -> Seq<nat> {
        fresh(self.message_len() + 1, hash_bits())
    }

    /// The first bit of the encoded header.
    pub open spec fn header_bits(self) -> nat {
        self.message_len() + 1 + hash_bits()
    }

    /// The constant 1.
    pub open spec fn one(self) -> nat {
        self.header_bits() + self.size * BYTE_BITS as nat
    }

    /// The number that the block has to have.
    pub open spec fn expected_number(self) -> nat {
        self.one() + 1
    }

    /// The first position after the header's targets.
    pub open spec fn end(self) -> nat {
        self.expected_number() + 1
    }
}

/// The number of targets that a header padded to `size` bytes takes.
pub open spec fn targets_per_header(size: nat) -> nat {
    (HeaderSlots { base: 0, size }).end()
}

/// The targets of the `i`-th header of a step.
pub open spec fn slots(config: StepConfig, base: nat, i: nat) -> HeaderSlots {
    HeaderSlots {
        base: base + i * targets_per_header(config.max_header_size as nat),
        size: config.max_header_size as nat,
    }
}

/// The number of targets that a step over `n` headers takes.
pub open spec fn targets_per_step(config: StepConfig, n: nat) -> nat {
    n * targets_per_header(config.max_header_size as nat) + HASH_SIZE as nat
}

/// Checks that every target of `bytes` holds a byte.
pub open spec fn byte_checks<P>(bytes: Seq<nat>) -> Seq<GadgetView<P>> {
    Seq::new(
        bytes.len(),
        |j: int| GadgetView::RangeCheck { x: bytes[j], n_log: BYTE_BITS as nat },
    )
}

/// Checks that the first `n` headers are made of bytes and that their sizes are in range.
pub open spec fn input_checks<P>(config: StepConfig, subchain: SubchainView, n: nat) -> Seq<
    GadgetView<P>,
>
    decreases n,
{
    if n == 0 {
        Seq::empty()
    } else {
        let i = n - 1;
        input_checks::<P>(config, subchain, (n - 1) as nat) + byte_checks(
            subchain.headers[i],
        ) + seq![
            GadgetView::RangeCheck {
                x: subchain.sizes[i],
                n_log: ceil_log2(config.max_header_size as nat),
            },
        ]
    }
}

/// Splits `byte` into the bits that start at `base`, and connects them, most significant first,
/// with the `expected` bits.
pub open spec fn byte_link<P>(byte: nat, expected: Seq<nat>, base: nat) -> Seq<GadgetView<P>> {
    seq![GadgetView::SplitLe { integer: byte, bits: fresh(base, BYTE_BITS as nat) }] + Seq::new(
        BYTE_BITS as nat,
        |k: int|
            GadgetView::Connect { x: expected[k], y: (base + BYTE_BITS as nat - 1 - k) as nat },
    )
}

/// Connects the `expected` bits with the bits of the first `n` of `bytes`, each most significant
/// bit first.
pub open spec fn bytes_link<P>(bytes: Seq<nat>, expected: Seq<nat>, base: nat, n: nat) -> Seq<
    GadgetView<P>,
>
    decreases n,
{
    if n == 0 {
        Seq::empty()
    } else {
        let i = n - 1;
        bytes_link::<P>(bytes, expected, base, (n - 1) as nat) + byte_link(
            bytes[i],
            expected.subrange(i * BYTE_BITS, n * BYTE_BITS as int),
            (base + i * BYTE_BITS) as nat,
        )
    }
}

/// Everything that a step demands of one header: it names the block with `prev_hash` as its
/// parent, and its number comes after `prev_num`. The digest of the header is computed for the
/// next one.
pub open spec fn header_gadgets<P>(
    bytes: Seq<nat>,
    size: nat,
    prev_hash: Seq<nat>,
    prev_num: nat,
    s: HeaderSlots,
) -> Seq<GadgetView<P>> {
    seq![
        GadgetView::DecodeHeader {
            bytes,
            size,
            parent_hash: s.parent_hash(),
            block_number: s.block_number(),
        },
    ] + bytes_link(s.parent_hash(), prev_hash, s.parent_hash_bits(), HASH_SIZE as nat) + seq![
        GadgetView::Blake2b {
            message: s.message(),
            message_len: s.message_len(),
            digest: s.digest(),
        },
    ] + bytes_link(bytes, s.message(), s.header_bits(), s.size) + seq![
        GadgetView::Connect { x: s.message_len(), y: size },
        GadgetView::One { one: s.one() },
        GadgetView::Add { x: prev_num, y: s.one(), sum: s.expected_number() },
        GadgetView::Connect { x: s.expected_number(), y: s.block_number() },
    ]
}

/// The hash that the `i`-th header has to name as its parent: that of the head block, or the
/// digest of the header before.
pub open spec fn prev_hash(config: StepConfig, subchain: SubchainView, base: nat, i: nat) -> Seq<
    nat,
> {
    if i == 0 {
        subchain.head_hash
    } else {
        slots(config, base, (i - 1) as nat).digest()
    }
}

/// The number of the block before the `i`-th header.
pub open spec fn prev_num(config: StepConfig, subchain: SubchainView, base: nat, i: nat) -> nat {
    if i == 0 {
        subchain.head_num
    } else {
        slots(config, base, (i - 1) as nat).block_number()
    }
}

/// Everything that a step demands of the first `n` headers.
pub open spec fn chain_gadgets<P>(
    config: StepConfig,
    subchain: SubchainView,
    base: nat,
    n: nat,
) -> Seq<GadgetView<P>>
    decreases n,
{
    if n == 0 {
        Seq::empty()
    } else {
        let i = (n - 1) as nat;
        chain_gadgets::<P>(config, subchain, base, i) + header_gadgets(
            subchain.headers[i as int],
            subchain.sizes[i as int],
            prev_hash(config, subchain, base, i),
            prev_num(config, subchain, base, i),
            slots(config, base, i),
        )
    }
}

/// Sums the bits of each byte of a hash, given most significant bit first, into targets that
/// start at `base`.
pub open spec fn hash_sums<P>(hash: Seq<nat>, base: nat) -> Seq<GadgetView<P>> {
    Seq::new(
        HASH_SIZE as nat,
        |j: int|
            GadgetView::LeSum {
                bits: hash.subrange(j * BYTE_BITS, (j + 1) * BYTE_BITS).reverse(),
                sum: (base + j) as nat,
            },
    )
}

/// The gadgets of a whole step: the checks of the inputs, the chain of headers, and the
/// justification of the last one.
pub open spec fn step_gadgets<P>(
    config: StepConfig,
    subchain: SubchainView,
    precommits: Seq<P>,
    signers: AuthoritySetSignersTarget,
    base: nat,
) -> Seq<GadgetView<P>> {
    let n = subchain.len();
    let last = slots(config, base, (n - 1) as nat);
    input_checks::<P>(config, subchain, n) + chain_gadgets(config, subchain, base, n) + hash_sums(
        last.digest(),
        last.end(),
    ) + seq![
        GadgetView::VerifyJustification {
            precommits,
            signers,
            num: last.block_number(),
            hash: fresh(last.end(), HASH_SIZE as nat),
        },
    ]
}

/// The circuit after a step.
pub open spec fn step_circuit<P>(
    circuit: Circuit<P>,
    subchain: SubchainView,
    precommits: Seq<P>,
    signers: AuthoritySetSignersTarget,
) -> Circuit<P> {
    circuit.extend(
        step_gadgets(circuit.config, subchain, precommits, signers, circuit.num_targets),
        targets_per_step(circuit.config, subchain.len()),
    )
}

/// The targets of the header after the `i`-th one start where those of the `i`-th one end.
pub proof fn lemma_slots_next(config: StepConfig, base: nat, i: nat)
    ensures
        slots(config, base, i + 1).base == slots(config, base, i).end(),
        slots(config, base, i).end() == slots(config, base, i).base + targets_per_header(
            config.max_header_size as nat,
        ),
{
    assert((i + 1) * targets_per_header(config.max_header_size as nat) == i * targets_per_header(
        config.max_header_size as nat,
    ) + targets_per_header(config.max_header_size as nat)) by (nonlinear_arith);
}

/// The first `i + 1` of `n` headers take no more targets than all of them.
pub proof fn lemma_slots_fit(config: StepConfig, base: nat, i: nat, n: nat)
    requires
        i < n,
    ensures
        slots(config, base, i).end() + HASH_SIZE <= base + targets_per_step(config, n),
{
    lemma_slots_next(config, base, i);
    let t = targets_per_header(config.max_header_size as nat);
    assert((i + 1) * t <= n * t) by (nonlinear_arith)
        requires
            i < n,
    ;
}

} // verus!
