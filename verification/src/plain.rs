//! What a step shows, in plain numbers: positions, values, divisions and sums.

use vstd::arithmetic::power2::{lemma2_to64, lemma_pow2_strictly_increases, pow2};
use vstd::prelude::*;

use crate::bits::{are_bytes, bits_be, bytes_be, ceil_log2, ceil_log2_is_least, le_value};
use crate::builder::{Circuit, StepConfig};
use crate::gadget::{Gadget, GadgetView};
use crate::laws::{step_is_complete, step_is_sound};
use crate::layout::{step_circuit, SubchainView};
use crate::meaning::{below, hash_bytes, HeaderTrace, Semantics};
use crate::step::VerifySubchainTarget;
use crate::target::{fresh, AuthoritySetSignersTarget, BoolTarget, Target};

verus! {

/// The lengths of a subchain alone decide whether a step takes it: one header at least and no
/// more than the limit, a size for each, every header as long as the padding, and 32 bytes of head
/// hash, bit by bit.
pub proof fn lengths_decide_the_fit(config: StepConfig, chain: SubchainView)
    ensures
        chain.fits(config) <==> {
            &&& chain.headers.len() >= 1
            &&& chain.headers.len() <= config.max_num_headers_per_step
            &&& chain.sizes.len() == chain.headers.len()
            &&& forall|i: int|
                0 <= i < chain.headers.len() ==> (#[trigger] chain.headers[i]).len()
                    == config.max_header_size
            &&& chain.head_hash.len() >= 256
        },
{
}

/// A limit that is no lower refuses no subchain that fits, and one that is lower than the number
/// of headers refuses it, whatever the rest of it.
pub proof fn the_limit_is_the_limit(config: StepConfig, limit: usize, chain: SubchainView)
    requires
        chain.fits(config),
    ensures
        chain.headers.len() <= config.max_num_headers_per_step,
        chain.fits(
            (StepConfig {
                max_header_size: config.max_header_size,
                max_num_headers_per_step: limit,
            }),
        ) <==> chain.headers.len() <= limit,
{
}

/// Fewer headers of a subchain that fits, but at least one, fit too.
pub proof fn fewer_headers_fit(config: StepConfig, chain: SubchainView, n: nat)
    requires
        chain.fits(config),
        1 <= n <= chain.headers.len(),
    ensures
        (SubchainView {
            headers: chain.headers.take(n as int),
            sizes: chain.sizes.take(n as int),
            ..chain
        }).fits(config),
{
}

/// The same headers with longer padding fit the longer padding, and no other.
pub proof fn padding_is_free(
    config: StepConfig,
    chain: SubchainView,
    padded: SubchainView,
    size: usize,
    other: usize,
)
    requires
        chain.fits(config),
        padded.head_hash == chain.head_hash,
        padded.headers.len() == chain.headers.len(),
        padded.sizes.len() == chain.sizes.len(),
        forall|i: int|
            0 <= i < padded.headers.len() ==> (#[trigger] padded.headers[i]).len() == size,
    ensures
        padded.fits(
            (StepConfig {
                max_header_size: other,
                max_num_headers_per_step: config.max_num_headers_per_step,
            }),
        ) <==> other == size,
{
    assert(padded.headers[0].len() == size);
}

/// The positions of a subchain are the indices of its targets, one for one.
pub proof fn subchain_positions_are_indices(subchain: VerifySubchainTarget)
    ensures
        subchain@.head_num == subchain.head_block_num.index,
        subchain@.head_hash.len() == subchain.head_block_hash@.len(),
        forall|x: int|
            0 <= x < subchain.head_block_hash@.len() ==> #[trigger] subchain@.head_hash[x]
                == subchain.head_block_hash@[x].target.index,
        subchain@.headers.len() == subchain.encoded_headers@.len(),
        forall|i: int|
            0 <= i < subchain.encoded_headers@.len() ==> (#[trigger] subchain@.headers[i]).len()
                == subchain.encoded_headers@[i]@.len(),
        forall|i: int, j: int|
            0 <= i < subchain.encoded_headers@.len() && 0 <= j
                < subchain.encoded_headers@[i]@.len() ==> #[trigger] subchain@.headers[i][j]
                == subchain.encoded_headers@[i]@[j].index,
        subchain@.sizes.len() == subchain.encoded_header_sizes@.len(),
        forall|i: int|
            0 <= i < subchain.encoded_header_sizes@.len() ==> #[trigger] subchain@.sizes[i]
                == subchain.encoded_header_sizes@[i].index,
{
}

/// `positions` are the indices of `targets`, one for one.
pub open spec fn are_indices(positions: Seq<nat>, targets: Seq<Target>) -> bool {
    &&& positions.len() == targets.len()
    &&& forall|i: int| 0 <= i < targets.len() ==> #[trigger] positions[i] == targets[i].index
}

/// `positions` are the indices of `bits`, one for one.
pub open spec fn are_bit_indices(positions: Seq<nat>, bits: Seq<BoolTarget>) -> bool {
    &&& positions.len() == bits.len()
    &&& forall|i: int| 0 <= i < bits.len() ==> #[trigger] positions[i] == bits[i].target.index
}

/// A gadget is seen as what it is: the same kind, with the index of each of its targets in its
/// place.
pub proof fn gadgets_are_seen_as_they_are<P>(g: Gadget<P>)
    ensures
        match g {
            Gadget::RangeCheck { x, n_log } => g@ matches GadgetView::RangeCheck { x: vx, n_log: vn }
                && vx == x.index && vn == n_log,
            Gadget::SplitLe { integer, bits } => g@ matches GadgetView::SplitLe {
                integer: vi,
                bits: vb,
            } && vi == integer.index && are_bit_indices(vb, bits@),
            Gadget::Connect { x, y } => g@ matches GadgetView::Connect { x: vx, y: vy } && vx
                == x.index && vy == y.index,
            Gadget::One { one } => g@ matches GadgetView::One { one: vo } && vo == one.index,
            Gadget::Add { x, y, sum } => g@ matches GadgetView::Add { x: vx, y: vy, sum: vs } && vx
                == x.index && vy == y.index && vs == sum.index,
            Gadget::LeSum { bits, sum } => g@ matches GadgetView::LeSum { bits: vb, sum: vs }
                && are_bit_indices(vb, bits@) && vs == sum.index,
            Gadget::DecodeHeader { encoded, decoded } => g@ matches GadgetView::DecodeHeader {
                bytes,
                size,
                parent_hash,
                block_number,
            } && are_indices(bytes, encoded.header_bytes@) && size == encoded.header_size.index
                && are_indices(parent_hash, decoded.parent_hash@) && block_number
                == decoded.block_number.index,
            Gadget::Blake2b { hash } => g@ matches GadgetView::Blake2b {
                message,
                message_len,
                digest,
            } && are_bit_indices(message, hash.message@) && message_len == hash.message_len.index
                && are_bit_indices(digest, hash.digest@),
            Gadget::VerifyJustification {
                signed_precommits,
                authority_set_signers,
                block,
            } => g@ matches GadgetView::VerifyJustification { precommits, signers, num, hash }
                && precommits == signed_precommits@ && signers == authority_set_signers && num
                == block.num.index && are_indices(hash, block.hash@),
        },
{
}

/// The positions that a builder hands out in one go follow each other.
pub proof fn fresh_positions_follow_each_other(base: nat, n: nat, i: int)
    requires
        0 <= i < n,
    ensures
        fresh(base, n).len() == n,
        fresh(base, n)[i] == base + i,
{
}

/// A circuit that is extended keeps its sizes, its gadgets and its targets, and the new gadgets
/// come last.
pub proof fn extending_only_adds<P>(circuit: Circuit<P>, gadgets: Seq<GadgetView<P>>, n: nat)
    ensures
        circuit.extend(gadgets, n).config == circuit.config,
        circuit.extend(gadgets, n).num_targets == circuit.num_targets + n,
        circuit.extend(gadgets, n).gadgets.len() == circuit.gadgets.len() + gadgets.len(),
        forall|i: int|
            0 <= i < circuit.gadgets.len() ==> #[trigger] circuit.extend(gadgets, n).gadgets[i]
                == circuit.gadgets[i],
        forall|i: int|
            0 <= i < gadgets.len() ==> #[trigger] gadgets[i] == circuit.extend(gadgets, n).gadgets[
            circuit.gadgets.len() + i],
        gadgets.len() == 1 ==> circuit.push(gadgets[0], n) == circuit.extend(gadgets, n),
{
    if gadgets.len() == 1 {
        assert(gadgets =~= seq![gadgets[0]]);
    }
}

proof fn lemma_inside_concat(a: Seq<nat>, b: Seq<nat>, n: nat)
    ensures
        below(a + b, n) <==> below(a, n) && below(b, n),
{
    if below(a + b, n) {
        assert forall|i: int| 0 <= i < a.len() implies #[trigger] a[i] < n by {
            assert((a + b)[i] == a[i]);
        }
        assert forall|i: int| 0 <= i < b.len() implies #[trigger] b[i] < n by {
            assert((a + b)[a.len() + i] == b[i]);
        }
    }
}

proof fn lemma_inside_push(a: Seq<nat>, x: nat, n: nat)
    ensures
        below(a.push(x), n) <==> below(a, n) && x < n,
{
    let b = seq![x];
    lemma_inside_concat(a, b, n);
    assert(a.push(x) =~= a + b);
    assert(b[0] == x);
}

/// A justification reads the first `n` targets only if it cannot tell apart two witnesses that
/// agree on these.
proof fn lemma_reads_below<P>(
    sem: Semantics<P>,
    precommits: Seq<P>,
    signers: AuthoritySetSignersTarget,
    n: nat,
)
    ensures
        sem.reads_below(precommits, signers, n) <==> forall|
            u: Seq<nat>,
            v: Seq<nat>,
            num: nat,
            hash: Seq<nat>,
        |
            n <= u.len() && n <= v.len() && u.take(n as int) == v.take(n as int)
                ==> #[trigger] (sem.justifies)(precommits, signers, u, num, hash)
                == #[trigger] (sem.justifies)(precommits, signers, v, num, hash),
{
    if sem.reads_below(precommits, signers, n) {
        assert forall|u: Seq<nat>, v: Seq<nat>, num: nat, hash: Seq<nat>|
            n <= u.len() && n <= v.len() && u.take(n as int) == v.take(
                n as int,
            ) implies #[trigger] (sem.justifies)(precommits, signers, u, num, hash)
            == #[trigger] (sem.justifies)(precommits, signers, v, num, hash) by {
            assert((sem.justifies)(precommits, signers, u, num, hash) == (sem.justifies)(
                precommits,
                signers,
                u.take(n as int),
                num,
                hash,
            ));
        }
    } else {
        let (u, num, hash) = choose|u: Seq<nat>, num: nat, hash: Seq<nat>|
            u.len() >= n && (sem.justifies)(precommits, signers, u, num, hash)
                != #[trigger] (sem.justifies)(precommits, signers, u.take(n as int), num, hash);
        let v = u.take(n as int);
        assert(v.take(n as int) =~= v);
    }
}

/// A gadget stays within the first `n` targets if what it reads and brings does and, where it
/// checks a justification, what the precommits and the signers are made of does.
pub proof fn gadgets_stay_within_their_targets<P>(g: GadgetView<P>, sem: Semantics<P>, n: nat)
    ensures
        g.within(sem, n) <==> {
            &&& forall|i: int| 0 <= i < g.reads().len() ==> #[trigger] g.reads()[i] < n
            &&& forall|i: int| 0 <= i < g.brings().len() ==> #[trigger] g.brings()[i] < n
            &&& g matches GadgetView::VerifyJustification { precommits, signers, .. }
                ==> forall|u: Seq<nat>, v: Seq<nat>, num: nat, hash: Seq<nat>|
                n <= u.len() && n <= v.len() && u.take(n as int) == v.take(n as int)
                    ==> #[trigger] (sem.justifies)(precommits, signers, u, num, hash)
                    == #[trigger] (sem.justifies)(precommits, signers, v, num, hash)
        },
{
    assert(below(g.reads(), n) <==> forall|i: int|
        0 <= i < g.reads().len() ==> #[trigger] g.reads()[i] < n);
    assert(below(g.brings(), n) <==> forall|i: int|
        0 <= i < g.brings().len() ==> #[trigger] g.brings()[i] < n);
    match g {
        GadgetView::RangeCheck { x, n_log } => {
            lemma_inside_push(Seq::empty(), x, n);
            assert(g.reads() =~= Seq::empty().push(x));
        },
        GadgetView::SplitLe { integer, bits } => {
            lemma_inside_push(Seq::empty(), integer, n);
            assert(g.reads() =~= Seq::empty().push(integer));
        },
        GadgetView::Connect { x, y } => {
            lemma_inside_push(Seq::empty(), x, n);
            lemma_inside_push(seq![x], y, n);
            assert(g.reads() =~= seq![x].push(y));
            assert(seq![x] =~= Seq::empty().push(x));
        },
        GadgetView::One { one } => {
            lemma_inside_push(Seq::empty(), one, n);
            assert(g.brings() =~= Seq::empty().push(one));
        },
        GadgetView::Add { x, y, sum } => {
            lemma_inside_push(Seq::empty(), x, n);
            lemma_inside_push(seq![x], y, n);
            lemma_inside_push(Seq::empty(), sum, n);
            assert(g.reads() =~= seq![x].push(y));
            assert(seq![x] =~= Seq::empty().push(x));
            assert(g.brings() =~= Seq::empty().push(sum));
        },
        GadgetView::LeSum { bits, sum } => {
            lemma_inside_push(Seq::empty(), sum, n);
            assert(g.brings() =~= Seq::empty().push(sum));
        },
        GadgetView::DecodeHeader { bytes, size, parent_hash, block_number } => {
            lemma_inside_push(bytes, size, n);
            lemma_inside_push(parent_hash, block_number, n);
        },
        GadgetView::Blake2b { message, message_len, digest } => {
            lemma_inside_push(message, message_len, n);
            lemma_inside_concat(message.push(message_len), digest, n);
        },
        GadgetView::VerifyJustification { precommits, signers, num, hash } => {
            lemma_inside_push(hash, num, n);
            lemma_reads_below(sem, precommits, signers, n);
        },
    }
}

/// The number with the eight bits of `bits` from `at` on, most significant first.
pub open spec fn byte_at(bits: Seq<nat>, at: int) -> nat {
    (128 * bits[at] + 64 * bits[at + 1] + 32 * bits[at + 2] + 16 * bits[at + 3] + 8 * bits[at + 4]
        + 4 * bits[at + 5] + 2 * bits[at + 6] + bits[at + 7]) as nat
}

/// The bit `x` of a sequence of bytes, most significant bit of each byte first.
pub open spec fn bit_at(bytes: Seq<nat>, x: int) -> nat {
    (bytes[x / 8] / pow2((7 - x % 8) as nat)) % 2
}

/// The `i`-th header follows the block before it, where `t` is what the headers say of themselves
/// and their digests.
pub open spec fn header_links<P>(
    sem: Semantics<P>,
    chain: SubchainView,
    w: Seq<nat>,
    t: Seq<HeaderTrace>,
    i: int,
) -> bool {
    let header = Seq::new(chain.headers[i].len(), |j: int| w[chain.headers[i][j] as int]);
    let size = w[chain.sizes[i] as int];
    let message = Seq::new((8 * header.len()) as nat, |x: int| bit_at(header, x));
    // The header decodes to 32 bytes of parent hash and to a number.
    &&& (sem.decodes)(header, size, t[i].parent_hash, t[i].block_number)
    &&& t[i].parent_hash.len() == 32
    &&& forall|j: int| 0 <= j < 32 ==> #[trigger] t[i].parent_hash[j] < 256
    // The parent hash is, bit by bit, the hash of the block before.
    &&& forall|x: int|
        #![trigger bit_at(t[i].parent_hash, x)]
        0 <= x < 256 ==> bit_at(t[i].parent_hash, x) == if i == 0 {
            w[chain.head_hash[x] as int]
        } else {
            t[i - 1].digest[x]
        }
    // The number is the next one.
    &&& t[i].block_number == (if i == 0 {
        w[chain.head_num as int] + 1
    } else {
        t[i - 1].block_number + 1
    }) % sem.order
    // The digest is that of the bits of the header, up to its size.
    &&& (sem.hashes)(message, size, t[i].digest)
    &&& t[i].digest.len() == 256
    &&& forall|x: int| 0 <= x < 256 ==> #[trigger] t[i].digest[x] < sem.order
}

/// The inputs of the `i`-th header are in range: bytes, and a size with no more bits than the
/// padding takes.
pub open spec fn header_inputs(
    config: StepConfig,
    chain: SubchainView,
    w: Seq<nat>,
    i: int,
) -> bool {
    &&& forall|j: int|
        0 <= j < chain.headers[i].len() ==> w[#[trigger] chain.headers[i][j] as int] < 256
    &&& config.max_header_size >= 2 ==> forall|k: nat|
        config.max_header_size <= #[trigger] pow2(k) ==> w[chain.sizes[i] as int] < pow2(k)
}

/// The range of the inputs, in bits and in numbers.
proof fn lemma_inputs(config: StepConfig, chain: SubchainView, w: Seq<nat>, i: int)
    requires
        chain.fits(config),
        0 <= i < chain.len(),
    ensures
        header_inputs(config, chain, w, i) <==> {
            let size_bits = ceil_log2(config.max_header_size as nat);
            &&& are_bytes(chain.filled(w).headers[i])
            &&& size_bits == 0 || chain.filled(w).sizes[i] < pow2(size_bits)
        },
{
    let m = config.max_header_size as nat;
    let size_bits = ceil_log2(m);
    let header = chain.filled(w).headers[i];
    let size = chain.filled(w).sizes[i];
    lemma2_to64();
    ceil_log2_is_least(m);
    assert(m <= pow2(size_bits));
    if are_bytes(header) {
        assert forall|j: int| 0 <= j < chain.headers[i].len() implies w[
        #[trigger] chain.headers[i][j] as int] < 256 by {
            assert(header[j] < pow2(8));
        }
    }
    if forall|j: int|
        0 <= j < chain.headers[i].len() ==> w[#[trigger] chain.headers[i][j] as int] < 256 {
        assert forall|j: int| 0 <= j < header.len() implies #[trigger] header[j] < pow2(8) by {
            assert(w[chain.headers[i][j] as int] < 256);
        }
    }
    if size_bits > 0 && size < pow2(size_bits) {
        assert forall|k: nat| m <= #[trigger] pow2(k) implies size < pow2(k) by {
            if size_bits < k {
                lemma_pow2_strictly_increases(size_bits, k);
            }
        }
    }
}

/// The link of a header, in bits and in numbers.
proof fn lemma_link<P>(
    sem: Semantics<P>,
    config: StepConfig,
    chain: SubchainView,
    w: Seq<nat>,
    t: Seq<HeaderTrace>,
    i: int,
)
    requires
        sem.order > 0,
        chain.fits(config),
        0 <= i < chain.len(),
        i > 0 ==> t[i - 1].digest.len() == 256,
    ensures
        header_links(sem, chain, w, t, i) <==> chain.filled(w).linked_at(sem, t, i),
{
    let c = chain.filled(w);
    let header = Seq::new(chain.headers[i].len(), |j: int| w[chain.headers[i][j] as int]);
    let message = Seq::new((8 * header.len()) as nat, |x: int| bit_at(header, x));
    let parent = t[i].parent_hash;
    let prev = c.hash_before(t, i);
    lemma2_to64();
    assert(c.headers[i] =~= header);
    assert(message =~= bits_be(header));
    assert forall|x: int| 0 <= x < 256 && parent.len() == 32 implies #[trigger] bits_be(parent)[x]
        == bit_at(parent, x) by {}
    if header_links(sem, chain, w, t, i) {
        assert forall|x: int| 0 <= x < 256 implies prev[x] == #[trigger] bits_be(parent)[x] by {
            assert(bit_at(parent, x) == bits_be(parent)[x]);
        }
        assert(prev =~= bits_be(parent));
        assert(are_bytes(parent));
        assert(c.linked_at(sem, t, i));
    }
    if c.linked_at(sem, t, i) {
        assert forall|x: int| #![trigger bit_at(parent, x)] 0 <= x < 256 implies bit_at(parent, x)
            == if i == 0 {
            w[chain.head_hash[x] as int]
        } else {
            t[i - 1].digest[x]
        } by {
            assert(bits_be(parent)[x] == bit_at(parent, x));
            assert(prev[x] == bits_be(parent)[x]);
        }
        assert(header_links(sem, chain, w, t, i));
    }
}

/// The bytes of a hash, by their bits and by their sums.
proof fn lemma_hash_bytes(order: nat, digest: Seq<nat>)
    requires
        order > 0,
        digest.len() == 256,
    ensures
        hash_bytes(order, digest) == Seq::new(32, |j: int| byte_at(digest, 8 * j) % order),
{
    let sums = Seq::new(32, |j: int| byte_at(digest, 8 * j) % order);
    assert forall|j: int| 0 <= j < 32 implies #[trigger] hash_bytes(order, digest)[j] == sums[j] by {
        let part = digest.subrange(8 * j, 8 * j + 8).reverse();
        let s1 = part.skip(1);
        let s2 = s1.skip(1);
        let s3 = s2.skip(1);
        let s4 = s3.skip(1);
        let s5 = s4.skip(1);
        let s6 = s5.skip(1);
        let s7 = s6.skip(1);
        let s8 = s7.skip(1);
        assert(le_value(s8) == 0);
        assert(le_value(s7) == digest[8 * j]);
        assert(le_value(s6) == digest[8 * j + 1] + 2 * le_value(s7));
        assert(le_value(s5) == digest[8 * j + 2] + 2 * le_value(s6));
        assert(le_value(s4) == digest[8 * j + 3] + 2 * le_value(s5));
        assert(le_value(s3) == digest[8 * j + 4] + 2 * le_value(s4));
        assert(le_value(s2) == digest[8 * j + 5] + 2 * le_value(s3));
        assert(le_value(s1) == digest[8 * j + 6] + 2 * le_value(s2));
        assert(le_value(part) == digest[8 * j + 7] + 2 * le_value(s1));
        assert(bytes_be(digest)[j] == byte_at(digest, 8 * j));
    }
    assert(hash_bytes(order, digest) =~= sums);
}

/// In an accepted circuit every header of every step is in range and follows the block before
/// it, starting from the head block, and the precommits and the authority set, all of them as they
/// were handed in, justify the number and the digest of the last header.
pub proof fn accepted_headers_link<P>(
    sem: Semantics<P>,
    circuit: Circuit<P>,
    chain: SubchainView,
    precommits: Seq<P>,
    signers: AuthoritySetSignersTarget,
    w: Seq<nat>,
) -> (t: Seq<HeaderTrace>)
    requires
        sem.order >= 256,
        chain.fits(circuit.config),
        w.len() == step_circuit(circuit, chain, precommits, signers).num_targets,
        forall|x: int| 0 <= x < w.len() ==> #[trigger] w[x] < sem.order,
        forall|i: int|
            0 <= i < step_circuit(circuit, chain, precommits, signers).gadgets.len() ==> (
            #[trigger] step_circuit(circuit, chain, precommits, signers).gadgets[i]).holds(sem, w),
    ensures
        t.len() == chain.headers.len(),
        forall|i: int|
            0 <= i < t.len() ==> #[trigger] header_inputs(circuit.config, chain, w, i),
        forall|i: int| 0 <= i < t.len() ==> #[trigger] header_links(sem, chain, w, t, i),
        (sem.justifies)(
            precommits,
            signers,
            w,
            t[t.len() - 1].block_number,
            Seq::new(32, |j: int| byte_at(t[t.len() - 1].digest, 8 * j) % sem.order),
        ),
{
    lemma2_to64();
    let c = chain.filled(w);
    let t = step_is_sound(sem, circuit, chain, precommits, signers, w);
    assert forall|i: int| 0 <= i < t.len() implies #[trigger] header_inputs(
        circuit.config,
        chain,
        w,
        i,
    ) by {
        lemma_inputs(circuit.config, chain, w, i);
        assert(are_bytes(c.headers[i]));
    }
    assert forall|i: int| 0 <= i < t.len() implies #[trigger] header_links(
        sem,
        chain,
        w,
        t,
        i,
    ) by {
        assert(c.linked_at(sem, t, i));
        if i > 0 {
            assert(c.linked_at(sem, t, i - 1));
        }
        lemma_link(sem, circuit.config, chain, w, t, i);
    }
    assert(c.linked_at(sem, t, t.len() - 1));
    lemma_hash_bytes(sem.order, t.last().digest);
    t
}

/// Conversely, headers in range, each following the block before it, whose last is justified by
/// the precommits and the authority set, are accepted: values for the targets known before the
/// step, of which the gadgets before the step hold, go on to values for all targets of which all
/// gadgets hold.
pub proof fn linked_headers_are_accepted<P>(
    sem: Semantics<P>,
    circuit: Circuit<P>,
    chain: SubchainView,
    precommits: Seq<P>,
    signers: AuthoritySetSignersTarget,
    w: Seq<nat>,
    t: Seq<HeaderTrace>,
) -> (v: Seq<nat>)
    requires
        sem.order >= 256,
        // The subchain has the shape of a step, on known targets.
        1 <= chain.headers.len() <= circuit.config.max_num_headers_per_step,
        chain.sizes.len() == chain.headers.len(),
        chain.head_hash.len() >= 256,
        chain.head_num < circuit.num_targets,
        forall|x: int|
            0 <= x < chain.head_hash.len() ==> #[trigger] chain.head_hash[x] < circuit.num_targets,
        forall|i: int|
            0 <= i < chain.headers.len() ==> (#[trigger] chain.headers[i]).len()
                == circuit.config.max_header_size,
        forall|i: int, j: int|
            0 <= i < chain.headers.len() && 0 <= j < chain.headers[i].len()
                ==> #[trigger] chain.headers[i][j] < circuit.num_targets,
        forall|i: int|
            0 <= i < chain.sizes.len() ==> #[trigger] chain.sizes[i] < circuit.num_targets,
        // So are the precommits and the signers, and the gadgets before the step.
        forall|u: Seq<nat>, v: Seq<nat>, num: nat, hash: Seq<nat>|
            circuit.num_targets <= u.len() && circuit.num_targets <= v.len() && u.take(
                circuit.num_targets as int,
            ) == v.take(circuit.num_targets as int) ==> #[trigger] (sem.justifies)(
                precommits,
                signers,
                u,
                num,
                hash,
            ) == #[trigger] (sem.justifies)(precommits, signers, v, num, hash),
        forall|i: int|
            0 <= i < circuit.gadgets.len() ==> (#[trigger] circuit.gadgets[i]).within(
                sem,
                circuit.num_targets,
            ),
        // The values are field elements, and the gadgets before the step hold.
        w.len() == circuit.num_targets,
        forall|x: int| 0 <= x < w.len() ==> #[trigger] w[x] < sem.order,
        forall|i: int|
            0 <= i < circuit.gadgets.len() ==> (#[trigger] circuit.gadgets[i]).holds(sem, w),
        // The headers are in order.
        t.len() == chain.headers.len(),
        forall|i: int|
            0 <= i < t.len() ==> #[trigger] header_inputs(circuit.config, chain, w, i),
        forall|i: int| 0 <= i < t.len() ==> #[trigger] header_links(sem, chain, w, t, i),
        (sem.justifies)(
            precommits,
            signers,
            w,
            t[t.len() - 1].block_number,
            Seq::new(32, |j: int| byte_at(t[t.len() - 1].digest, 8 * j) % sem.order),
        ),
    ensures
        v.len() == step_circuit(circuit, chain, precommits, signers).num_targets,
        v.len() >= w.len(),
        forall|x: int| 0 <= x < w.len() ==> #[trigger] v[x] == w[x],
        forall|x: int| 0 <= x < v.len() ==> #[trigger] v[x] < sem.order,
        forall|i: int|
            0 <= i < step_circuit(circuit, chain, precommits, signers).gadgets.len() ==> (
            #[trigger] step_circuit(circuit, chain, precommits, signers).gadgets[i]).holds(sem, v),
{
    let config = circuit.config;
    let c = chain.filled(w);
    let n = chain.headers.len() as int;
    lemma2_to64();
    lemma_reads_below(sem, precommits, signers, circuit.num_targets);
    lengths_decide_the_fit(config, chain);
    assert(chain.below(circuit.num_targets)) by {
        assert forall|i: int| 0 <= i < n implies below(
            #[trigger] chain.headers[i],
            circuit.num_targets,
        ) by {
            assert forall|j: int| 0 <= j < chain.headers[i].len() implies #[trigger] chain.headers[
            i][j] < circuit.num_targets by {}
        }
    }
    assert(c.in_range(config)) by {
        assert forall|i: int| 0 <= i < n implies {
            &&& are_bytes(#[trigger] c.headers[i])
            &&& ceil_log2(config.max_header_size as nat) == 0 || c.sizes[i] < pow2(
                ceil_log2(config.max_header_size as nat),
            )
        } by {
            assert(header_inputs(config, chain, w, i));
            lemma_inputs(config, chain, w, i);
        }
    }
    assert forall|i: int| 0 <= i < n implies #[trigger] c.linked_at(sem, t, i) by {
        assert(header_links(sem, chain, w, t, i));
        if i > 0 {
            assert(header_links(sem, chain, w, t, i - 1));
        }
        lemma_link(sem, config, chain, w, t, i);
    }
    assert(header_links(sem, chain, w, t, n - 1));
    lemma_hash_bytes(sem.order, t.last().digest);
    let v = step_is_complete(sem, circuit, chain, precommits, signers, w, t);
    assert forall|x: int| 0 <= x < w.len() implies #[trigger] v[x] == w[x] by {
        assert(v.take(w.len() as int)[x] == v[x]);
    }
    v
}

} // verus!
