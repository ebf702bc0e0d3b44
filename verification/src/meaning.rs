//! What a circuit lets through.
//!
//! A witness gives every target of a circuit a field element. The circuit accepts it if every
//! gadget holds of the values at the gadget's targets.

use vstd::arithmetic::power2::pow2;
use vstd::prelude::*;

use crate::bits::{are_bytes, bits_be, bytes_be, ceil_log2, le_value};
use crate::builder::{Circuit, StepConfig};
use crate::gadget::GadgetView;
use crate::layout::{hash_bits, SubchainView};
use crate::target::{AuthoritySetSignersTarget, HASH_SIZE};

verus! {

/// The field of a circuit, and what its larger gadgets let through.
#[verifier::reject_recursive_types(P)]
pub struct Semantics<P> {
    /// The order of the field, whose elements are the numbers below it.
    pub order: nat,
    /// A padded header and its size decode to a parent hash and a block number.
    pub decodes: spec_fn(Seq<nat>, nat, Seq<nat>, nat) -> bool,
    /// A padded message, as bits, and its length in bytes have a digest, as bits.
    pub hashes: spec_fn(Seq<nat>, nat, Seq<nat>) -> bool,
    /// The precommits and the authority set, whose targets a witness fills, justify the block
    /// with a number and a hash.
    pub justifies: spec_fn(Seq<P>, AuthoritySetSignersTarget, Seq<nat>, nat, Seq<nat>) -> bool,
}

impl<P> Semantics<P> {
    /// A header has at most one decoding.
    pub open spec fn decodes_once(self) -> bool {
        forall|header: Seq<nat>, size: nat, p1: Seq<nat>, n1: nat, p2: Seq<nat>, n2: nat|
            #[trigger] (self.decodes)(header, size, p1, n1) && #[trigger] (self.decodes)(
                header,
                size,
                p2,
                n2,
            ) ==> p1 == p2 && n1 == n2
    }

    /// A message has at most one digest.
    pub open spec fn hashes_once(self) -> bool {
        forall|message: Seq<nat>, len: nat, d1: Seq<nat>, d2: Seq<nat>|
            #[trigger] (self.hashes)(message, len, d1) && #[trigger] (self.hashes)(
                message,
                len,
                d2,
            ) ==> d1 == d2
    }

    /// The precommits and the authority set are made of the first `n` targets: what a witness
    /// says of any other does not matter to the justification.
    pub open spec fn reads_below(
        self,
        precommits: Seq<P>,
        signers: AuthoritySetSignersTarget,
        n: nat,
    ) -> bool {
        forall|w: Seq<nat>, num: nat, hash: Seq<nat>|
            w.len() >= n ==> (self.justifies)(precommits, signers, w, num, hash)
                == #[trigger] (self.justifies)(precommits, signers, w.take(n as int), num, hash)
    }
}

/// The positions are among the first `n`.
pub open spec fn below(positions: Seq<nat>, n: nat) -> bool {
    forall|i: int| 0 <= i < positions.len() ==> #[trigger] positions[i] < n
}

/// The values of a witness at some positions.
pub open spec fn values(w: Seq<nat>, positions: Seq<nat>) -> Seq<nat> {
    Seq::new(positions.len(), |i: int| w[positions[i] as int])
}

impl<P> GadgetView<P> {
    /// The gadget holds of the values of a witness.
    pub open spec fn holds(self, sem: Semantics<P>, w: Seq<nat>) -> bool {
        match self {
            GadgetView::RangeCheck { x, n_log } => n_log == 0 || w[x as int] < pow2(n_log),
            GadgetView::SplitLe { integer, bits } => {
                let b = values(w, bits);
                bits.len() == 0 || {
                    &&& forall|k: int| 0 <= k < b.len() ==> #[trigger] b[k] <= 1
                    &&& w[integer as int] == le_value(b) % sem.order
                }
            },
            GadgetView::Connect { x, y } => w[x as int] == w[y as int],
            GadgetView::One { one } => w[one as int] == 1,
            GadgetView::Add { x, y, sum } => w[sum as int] == (w[x as int] + w[y as int])
                % sem.order,
            GadgetView::LeSum { bits, sum } => w[sum as int] == le_value(values(w, bits))
                % sem.order,
            GadgetView::DecodeHeader { bytes, size, parent_hash, block_number } => (sem.decodes)(
                values(w, bytes),
                w[size as int],
                values(w, parent_hash),
                w[block_number as int],
            ),
            GadgetView::Blake2b { message, message_len, digest } => (sem.hashes)(
                values(w, message),
                w[message_len as int],
                values(w, digest),
            ),
            GadgetView::VerifyJustification { precommits, signers, num, hash } => (sem.justifies)(
                precommits,
                signers,
                w,
                w[num as int],
                values(w, hash),
            ),
        }
    }
}

impl<P> GadgetView<P> {
    /// The gadget speaks of the first `n` targets only.
    pub open spec fn within(self, sem: Semantics<P>, n: nat) -> bool {
        match self {
            GadgetView::RangeCheck { x, n_log } => x < n,
            GadgetView::SplitLe { integer, bits } => integer < n && below(bits, n),
            GadgetView::Connect { x, y } => x < n && y < n,
            GadgetView::One { one } => one < n,
            GadgetView::Add { x, y, sum } => x < n && y < n && sum < n,
            GadgetView::LeSum { bits, sum } => below(bits, n) && sum < n,
            GadgetView::DecodeHeader { bytes, size, parent_hash, block_number } => {
                below(bytes, n) && size < n && below(parent_hash, n) && block_number < n
            },
            GadgetView::Blake2b { message, message_len, digest } => {
                below(message, n) && message_len < n && below(digest, n)
            },
            GadgetView::VerifyJustification { precommits, signers, num, hash } => {
                sem.reads_below(precommits, signers, n) && num < n && below(hash, n)
            },
        }
    }
}

/// Every gadget speaks of the first `n` targets only.
pub open spec fn all_within<P>(
    gadgets: Seq<GadgetView<P>>,
    sem: Semantics<P>,
    n: nat,
) -> bool {
    forall|i: int| 0 <= i < gadgets.len() ==> (#[trigger] gadgets[i]).within(sem, n)
}

/// Every gadget holds of the values of a witness.
pub open spec fn all_hold<P>(
    gadgets: Seq<GadgetView<P>>,
    sem: Semantics<P>,
    w: Seq<nat>,
) -> bool {
    forall|i: int| 0 <= i < gadgets.len() ==> (#[trigger] gadgets[i]).holds(sem, w)
}

impl<P> Circuit<P> {
    /// `w` gives every target a field element.
    pub open spec fn is_witness(self, sem: Semantics<P>, w: Seq<nat>) -> bool {
        &&& w.len() == self.num_targets
        &&& forall|i: int| 0 <= i < w.len() ==> #[trigger] w[i] < sem.order
    }

    /// The gadgets speak of the targets of the circuit only.
    pub open spec fn closed_over(self, sem: Semantics<P>) -> bool {
        all_within(self.gadgets, sem, self.num_targets)
    }

    /// The circuit accepts the witness.
    pub open spec fn accepts(self, sem: Semantics<P>, w: Seq<nat>) -> bool {
        &&& self.is_witness(sem, w)
        &&& all_hold(self.gadgets, sem, w)
    }
}

/// The values of a subchain: the hash of the head block as bits, most significant bit of each
/// byte first, the number of the head block, and the padded headers with their sizes.
#[verifier::ext_equal]
pub struct Subchain {
    pub head_hash: Seq<nat>,
    pub head_num: nat,
    pub headers: Seq<Seq<nat>>,
    pub sizes: Seq<nat>,
}

impl SubchainView {
    /// The subchain is made of the first `n` targets.
    pub open spec fn below(self, n: nat) -> bool {
        &&& below(self.head_hash, n)
        &&& self.head_num < n
        &&& forall|i: int| 0 <= i < self.headers.len() ==> below(#[trigger] self.headers[i], n)
        &&& below(self.sizes, n)
    }

    /// The subchain that a witness fills in.
    pub open spec fn filled(self, w: Seq<nat>) -> Subchain {
        Subchain {
            head_hash: values(w, self.head_hash).take(hash_bits() as int),
            head_num: w[self.head_num as int],
            headers: Seq::new(self.headers.len(), |i: int| values(w, self.headers[i])),
            sizes: values(w, self.sizes),
        }
    }
}

/// What a header says of itself, and its digest as bits.
#[verifier::ext_equal]
pub struct HeaderTrace {
    pub parent_hash: Seq<nat>,
    pub block_number: nat,
    pub digest: Seq<nat>,
}

/// A header follows the block with the given hash, as bits, and number.
pub open spec fn follows<P>(
    sem: Semantics<P>,
    header: Seq<nat>,
    size: nat,
    prev_hash: Seq<nat>,
    prev_num: nat,
    t: HeaderTrace,
) -> bool {
    // The header decodes to a parent hash and a number: those of the block before it, and of
    // the block after that one.
    &&& (sem.decodes)(header, size, t.parent_hash, t.block_number)
    &&& t.parent_hash.len() == HASH_SIZE
    &&& are_bytes(t.parent_hash)
    &&& prev_hash == bits_be(t.parent_hash)
    &&& t.block_number == (prev_num + 1) % sem.order
    // The digest is that of the header.
    &&& (sem.hashes)(bits_be(header), size, t.digest)
    &&& t.digest.len() == hash_bits()
    &&& forall|i: int| 0 <= i < t.digest.len() ==> #[trigger] t.digest[i] < sem.order
}

impl Subchain {
    /// The number of headers.
    pub open spec fn len(self) -> nat {
        self.headers.len()
    }

    /// Each header has a size. The headers are made of bytes, and their sizes take no more bits
    /// than the size of the padding.
    pub open spec fn in_range(self, config: StepConfig) -> bool {
        let size_bits = ceil_log2(config.max_header_size as nat);
        &&& self.sizes.len() == self.len()
        &&& forall|i: int|
            0 <= i < self.len() ==> {
                &&& are_bytes(#[trigger] self.headers[i])
                &&& size_bits == 0 || self.sizes[i] < pow2(size_bits)
            }
    }

    /// The subchain that goes on with the headers of another.
    pub open spec fn append(self, next: Subchain) -> Subchain {
        Subchain {
            head_hash: self.head_hash,
            head_num: self.head_num,
            headers: self.headers + next.headers,
            sizes: self.sizes + next.sizes,
        }
    }

    /// The hash, as bits, of the block before the `i`-th header.
    pub open spec fn hash_before(self, t: Seq<HeaderTrace>, i: int) -> Seq<nat> {
        if i == 0 {
            self.head_hash
        } else {
            t[i - 1].digest
        }
    }

    /// The number of the block before the `i`-th header.
    pub open spec fn num_before(self, t: Seq<HeaderTrace>, i: int) -> nat {
        if i == 0 {
            self.head_num
        } else {
            t[i - 1].block_number
        }
    }

    /// The `i`-th header follows the block before it.
    pub open spec fn linked_at<P>(self, sem: Semantics<P>, t: Seq<HeaderTrace>, i: int) -> bool {
        follows(
            sem,
            self.headers[i],
            self.sizes[i],
            self.hash_before(t, i),
            self.num_before(t, i),
            t[i],
        )
    }

    /// Each header follows the block before it.
    pub open spec fn linked<P>(self, sem: Semantics<P>, t: Seq<HeaderTrace>) -> bool {
        &&& t.len() == self.len()
        &&& forall|i: int| 0 <= i < self.len() ==> #[trigger] self.linked_at(sem, t, i)
    }

    /// The subchain is well formed and linked, and the block of its last header is justified.
    pub open spec fn verified<P>(
        self,
        sem: Semantics<P>,
        config: StepConfig,
        precommits: Seq<P>,
        signers: AuthoritySetSignersTarget,
        w: Seq<nat>,
        t: Seq<HeaderTrace>,
    ) -> bool {
        &&& self.len() > 0
        &&& self.in_range(config)
        &&& self.linked(sem, t)
        &&& (sem.justifies)(
            precommits,
            signers,
            w,
            t.last().block_number,
            hash_bytes(sem.order, t.last().digest),
        )
    }
}

/// The bytes of a hash given as bits, each reduced to a field element.
pub open spec fn hash_bytes(order: nat, bits: Seq<nat>) -> Seq<nat> {
    let bytes = bytes_be(bits);
    Seq::new(bytes.len(), |j: int| bytes[j] % order)
}

} // verus!
