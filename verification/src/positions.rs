//! What a step records, gadget by gadget.
//!
//! With headers padded to `m` bytes, a step over `n` headers records `n * (m + 1)` checks of its
//! inputs, `9 * m + 294` gadgets for each header, which bring `16 * m + 548` targets, and 33
//! gadgets for the justification, which bring 32.

use vstd::arithmetic::power2::pow2;
use vstd::prelude::*;

use crate::bits::{ceil_log2, ceil_log2_is_least};
use crate::builder::{Circuit, StepConfig};
use crate::gadget::GadgetView;
use crate::layout::{
    byte_checks, byte_link, bytes_link, chain_gadgets, header_gadgets, input_checks, prev_hash,
    prev_num, slots, step_circuit, step_gadgets, SubchainView,
};
use crate::target::{fresh, AuthoritySetSignersTarget, BYTE_BITS, HASH_SIZE};

verus! {

/// The checks of the first `n` headers, one by one.
proof fn lemma_input_checks_at<P>(config: StepConfig, chain: SubchainView, n: nat, i: nat, j: nat)
    requires
        chain.fits(config),
        n <= chain.len(),
        j <= config.max_header_size,
    ensures
        input_checks::<P>(config, chain, n).len() == n * (config.max_header_size + 1),
        i < n ==> i * (config.max_header_size + 1) + j < n * (config.max_header_size + 1),
        i < n ==> input_checks::<P>(config, chain, n)[i * (config.max_header_size + 1) + j]
            == if j < config.max_header_size {
            GadgetView::<P>::RangeCheck { x: chain.headers[i as int][j as int], n_log: 8 }
        } else {
            GadgetView::<P>::RangeCheck {
                x: chain.sizes[i as int],
                n_log: ceil_log2(config.max_header_size as nat),
            }
        },
    decreases n,
{
    let m = config.max_header_size;
    if n > 0 {
        let before = (n - 1) as nat;
        let init = input_checks::<P>(config, chain, before);
        let bytes = byte_checks::<P>(chain.headers[n - 1]);
        let all = input_checks::<P>(config, chain, n);
        lemma_input_checks_at::<P>(config, chain, before, i, j);
        assert(n * (m + 1) == before * (m + 1) + (m + 1)) by (nonlinear_arith)
            requires
                before == n - 1,
        ;
        assert(bytes.len() == m);
        if i < before {
            assert(all[i * (m + 1) + j] == init[i * (m + 1) + j]);
        } else if i == before {
            assert(i * (m + 1) == init.len());
        }
    }
}

/// The links of the first `n` bytes, one by one.
proof fn lemma_bytes_link_at<P>(
    bytes: Seq<nat>,
    expected: Seq<nat>,
    base: nat,
    n: nat,
    j: int,
    k: int,
)
    requires
        n <= bytes.len(),
        8 * n <= expected.len(),
        0 <= j,
        0 <= k < 8,
    ensures
        bytes_link::<P>(bytes, expected, base, n).len() == 9 * n,
        j < n ==> bytes_link::<P>(bytes, expected, base, n)[9 * j] == (GadgetView::<
            P,
        >::SplitLe {
            integer: bytes[j as int],
            bits: Seq::new(8, |l: int| (base + 8 * j + l) as nat),
        }),
        j < n ==> bytes_link::<P>(bytes, expected, base, n)[9 * j + 1 + k] == (GadgetView::<
            P,
        >::Connect { x: expected[8 * j + k], y: (base + 8 * j + 7 - k) as nat }),
    decreases n,
{
    if n > 0 {
        let before = (n - 1) as nat;
        let init = bytes_link::<P>(bytes, expected, base, before);
        let part = expected.subrange(before * BYTE_BITS, n * BYTE_BITS);
        let part_base = (base + before * BYTE_BITS) as nat;
        let link = byte_link::<P>(bytes[before as int], part, part_base);
        let all = bytes_link::<P>(bytes, expected, base, n);
        lemma_bytes_link_at::<P>(bytes, expected, base, before, j, k);
        assert(all == init + link);
        if j < before {
            assert(all[9 * j] == init[9 * j]);
            assert(all[9 * j + 1 + k] == init[9 * j + 1 + k]);
        } else if j == before {
            assert(all[9 * j] == link[0]);
            assert(all[9 * j + 1 + k] == link[1 + k]);
            assert(part[k] == expected[8 * j + k]);
            assert(fresh(part_base, BYTE_BITS as nat) =~= Seq::new(
                8,
                |l: int| (base + 8 * j + l) as nat,
            ));
        }
    }
}

/// The gadgets of the first `n` headers are those of each of them, in turn.
proof fn lemma_chain_at<P>(
    config: StepConfig,
    chain: SubchainView,
    base: nat,
    n: nat,
    i: nat,
    x: nat,
)
    requires
        chain.fits(config),
        n <= chain.len(),
        x < 9 * config.max_header_size + 294,
    ensures
        chain_gadgets::<P>(config, chain, base, n).len() == n * (9 * config.max_header_size + 294),
        i < n ==> i * (9 * config.max_header_size + 294) + x < n * (9 * config.max_header_size
            + 294),
        i < n ==> chain_gadgets::<P>(config, chain, base, n)[i * (9 * config.max_header_size + 294)
            + x] == header_gadgets::<P>(
            chain.headers[i as int],
            chain.sizes[i as int],
            prev_hash(config, chain, base, i),
            prev_num(config, chain, base, i),
            slots(config, base, i),
        )[x as int],
    decreases n,
{
    let g = 9 * config.max_header_size + 294;
    if n > 0 {
        let before = (n - 1) as nat;
        let init = chain_gadgets::<P>(config, chain, base, before);
        let s = slots(config, base, before);
        let header = header_gadgets::<P>(
            chain.headers[before as int],
            chain.sizes[before as int],
            prev_hash(config, chain, base, before),
            prev_num(config, chain, base, before),
            s,
        );
        let all = chain_gadgets::<P>(config, chain, base, n);
        lemma_chain_at::<P>(config, chain, base, before, i, x);
        lemma_bytes_link_at::<P>(
            s.parent_hash(),
            prev_hash(config, chain, base, before),
            s.parent_hash_bits(),
            32,
            0,
            0,
        );
        lemma_bytes_link_at::<P>(
            chain.headers[before as int],
            s.message(),
            s.header_bits(),
            s.size,
            0,
            0,
        );
        assert(header.len() == g);
        assert(n * g == before * g + g) by (nonlinear_arith)
            requires
                before == n - 1,
        ;
        assert(all == init + header);
        if i < before {
            assert(all[i * g + x] == init[i * g + x]);
        } else if i == before {
            assert(all[i * g + x] == header[x as int]);
        }
    }
}

/// Where the `x`-th gadget of the `i`-th header stands in the circuit.
proof fn lemma_header_gadget<P>(
    circuit: Circuit<P>,
    chain: SubchainView,
    precommits: Seq<P>,
    signers: AuthoritySetSignersTarget,
    i: nat,
    x: nat,
)
    requires
        chain.fits(circuit.config),
        i < chain.len(),
        x < 9 * circuit.config.max_header_size + 294,
    ensures
        step_circuit(circuit, chain, precommits, signers).gadgets[circuit.gadgets.len()
            + chain.len() * (circuit.config.max_header_size + 1) + i * (9
            * circuit.config.max_header_size + 294) + x] == header_gadgets::<P>(
            chain.headers[i as int],
            chain.sizes[i as int],
            prev_hash(circuit.config, chain, circuit.num_targets, i),
            prev_num(circuit.config, chain, circuit.num_targets, i),
            slots(circuit.config, circuit.num_targets, i),
        )[x as int],
{
    let n = chain.len();
    let base = circuit.num_targets;
    lemma_input_checks_at::<P>(circuit.config, chain, n, 0, 0);
    lemma_chain_at::<P>(circuit.config, chain, base, n, i, x);
    let inputs = input_checks::<P>(circuit.config, chain, n);
    let headers = chain_gadgets::<P>(circuit.config, chain, base, n);
    let all = step_gadgets(circuit.config, chain, precommits, signers, base);
    let at = i * (9 * circuit.config.max_header_size + 294) + x;
    assert(all[inputs.len() + at] == headers[at]);
}

/// A step only adds to a circuit, and what it adds depends on the number of headers and on their
/// padding alone.
pub proof fn step_only_adds<P>(
    circuit: Circuit<P>,
    chain: SubchainView,
    precommits: Seq<P>,
    signers: AuthoritySetSignersTarget,
)
    requires
        chain.fits(circuit.config),
    ensures
        ({
            let after = step_circuit(circuit, chain, precommits, signers);
            let m = circuit.config.max_header_size;
            let n = chain.headers.len();
            &&& after.config == circuit.config
            &&& after.num_targets == circuit.num_targets + n * (16 * m + 548) + 32
            &&& after.gadgets.len() == circuit.gadgets.len() + n * (m + 1) + n * (9 * m + 294) + 33
            &&& forall|i: int|
                0 <= i < circuit.gadgets.len() ==> #[trigger] after.gadgets[i]
                    == circuit.gadgets[i]
        }),
{
    lemma_input_checks_at::<P>(circuit.config, chain, chain.len(), 0, 0);
    lemma_chain_at::<P>(circuit.config, chain, circuit.num_targets, chain.len(), 0, 0);
}

/// A step first checks its inputs: each byte of each header in turn, and after them the size of
/// the header, which takes as many bits as it takes to count to the padding.
pub proof fn step_checks_inputs_first<P>(
    circuit: Circuit<P>,
    chain: SubchainView,
    precommits: Seq<P>,
    signers: AuthoritySetSignersTarget,
    i: int,
    j: int,
)
    requires
        chain.fits(circuit.config),
        0 <= i < chain.headers.len(),
    ensures
        ({
            let after = step_circuit(circuit, chain, precommits, signers);
            let m = circuit.config.max_header_size;
            let at = circuit.gadgets.len() + i * (m + 1);
            &&& 0 <= j < m ==> after.gadgets[at + j] == (GadgetView::<P>::RangeCheck {
                x: chain.headers[i][j],
                n_log: 8,
            })
            &&& after.gadgets[at + m] matches GadgetView::RangeCheck { x, n_log } && {
                &&& x == chain.sizes[i]
                &&& m <= pow2(n_log)
                &&& forall|k: nat| m <= #[trigger] pow2(k) ==> n_log <= k
            }
        }),
{
    let m = circuit.config.max_header_size;
    let n = chain.len();
    let all = step_gadgets(circuit.config, chain, precommits, signers, circuit.num_targets);
    let inputs = input_checks::<P>(circuit.config, chain, n);
    assert(i * (m + 1) >= 0) by (nonlinear_arith)
        requires
            i >= 0,
    ;
    if 0 <= j < m {
        lemma_input_checks_at::<P>(circuit.config, chain, n, i as nat, j as nat);
        assert(all[i * (m + 1) + j] == inputs[i * (m + 1) + j]);
    }
    lemma_input_checks_at::<P>(circuit.config, chain, n, i as nat, m as nat);
    assert(all[i * (m + 1) + m] == inputs[i * (m + 1) + m]);
    ceil_log2_is_least(m as nat);
}

/// Then come the headers, each decoded first. The bits of byte `j` of its parent hash are the
/// bits of byte `j` of the hash of the head block, or of the digest of the header before, most
/// significant first.
pub proof fn step_links_each_parent<P>(
    circuit: Circuit<P>,
    chain: SubchainView,
    precommits: Seq<P>,
    signers: AuthoritySetSignersTarget,
    i: int,
    j: int,
    k: int,
)
    requires
        chain.fits(circuit.config),
        0 <= i < chain.headers.len(),
        0 <= j < 32,
        0 <= k < 8,
    ensures
        ({
            let after = step_circuit(circuit, chain, precommits, signers);
            let m = circuit.config.max_header_size;
            let at = circuit.gadgets.len() + chain.headers.len() * (m + 1) + i * (9 * m + 294);
            let base = circuit.num_targets + i * (16 * m + 548);
            // The digest of the header before ends 2 targets and the bits of a header before
            // this header starts.
            let before = base - (8 * m + 2) - 256;
            &&& after.gadgets[at] == (GadgetView::<P>::DecodeHeader {
                bytes: chain.headers[i],
                size: chain.sizes[i],
                parent_hash: Seq::new(32, |l: int| (base + l) as nat),
                block_number: (base + 32) as nat,
            })
            &&& after.gadgets[at + 1 + 9 * j] == (GadgetView::<P>::SplitLe {
                integer: (base + j) as nat,
                bits: Seq::new(8, |l: int| (base + 33 + 8 * j + l) as nat),
            })
            &&& after.gadgets[at + 1 + 9 * j + 1 + k] == (GadgetView::<P>::Connect {
                x: if i == 0 {
                    chain.head_hash[8 * j + k]
                } else {
                    (before + 8 * j + k) as nat
                },
                y: (base + 33 + 8 * j + 7 - k) as nat,
            })
        }),
{
    let config = circuit.config;
    let m = config.max_header_size;
    let s = slots(config, circuit.num_targets, i as nat);
    let prev = prev_hash(config, chain, circuit.num_targets, i as nat);
    let link = bytes_link::<P>(s.parent_hash(), prev, s.parent_hash_bits(), 32);
    let header = header_gadgets::<P>(
        chain.headers[i],
        chain.sizes[i],
        prev,
        prev_num(config, chain, circuit.num_targets, i as nat),
        s,
    );
    if i > 0 {
        assert(i * (16 * m + 548) == (i - 1) * (16 * m + 548) + (16 * m + 548)) by (
        nonlinear_arith);
    }
    assert(i * (16 * m + 548) >= 0) by (nonlinear_arith)
        requires
            i >= 0,
    ;
    lemma_bytes_link_at::<P>(
        s.parent_hash(),
        prev,
        s.parent_hash_bits(),
        32,
        j,
        k,
    );
    lemma_header_gadget(circuit, chain, precommits, signers, i as nat, 0);
    lemma_header_gadget(circuit, chain, precommits, signers, i as nat, (1 + 9 * j) as nat);
    lemma_header_gadget(circuit, chain, precommits, signers, i as nat, (2 + 9 * j + k) as nat);
    assert(header[1 + 9 * j] == link[9 * j]);
    assert(header[2 + 9 * j + k] == link[9 * j + 1 + k]);
    assert(s.parent_hash() =~= Seq::new(
        32,
        |l: int| (circuit.num_targets + i * (16 * m + 548) + l) as nat,
    ));
}

/// Next, the header is hashed: the bits of its byte `j` are those of the message, most significant
/// first.
pub proof fn step_hashes_each_header<P>(
    circuit: Circuit<P>,
    chain: SubchainView,
    precommits: Seq<P>,
    signers: AuthoritySetSignersTarget,
    i: int,
    j: int,
    k: int,
)
    requires
        chain.fits(circuit.config),
        0 <= i < chain.headers.len(),
    ensures
        ({
            let after = step_circuit(circuit, chain, precommits, signers);
            let m = circuit.config.max_header_size;
            let at = circuit.gadgets.len() + chain.headers.len() * (m + 1) + i * (9 * m + 294)
                + 289;
            let message = circuit.num_targets + i * (16 * m + 548) + 289;
            let bits = message + 8 * m + 257;
            &&& after.gadgets[at] == (GadgetView::<P>::Blake2b {
                message: Seq::new((8 * m) as nat, |l: int| (message + l) as nat),
                message_len: (message + 8 * m) as nat,
                digest: Seq::new(256, |l: int| (message + 8 * m + 1 + l) as nat),
            })
            &&& 0 <= j < m ==> after.gadgets[at + 1 + 9 * j] == (GadgetView::<P>::SplitLe {
                integer: chain.headers[i][j],
                bits: Seq::new(8, |l: int| (bits + 8 * j + l) as nat),
            })
            &&& 0 <= j < m && 0 <= k < 8 ==> after.gadgets[at + 1 + 9 * j + 1 + k] == (GadgetView::<P>::Connect {
                x: (message + 8 * j + k) as nat,
                y: (bits + 8 * j + 7 - k) as nat,
            })
        }),
{
    let config = circuit.config;
    let m = config.max_header_size;
    let s = slots(config, circuit.num_targets, i as nat);
    let prev = prev_hash(config, chain, circuit.num_targets, i as nat);
    let parent = bytes_link::<P>(s.parent_hash(), prev, s.parent_hash_bits(), 32);
    let link = bytes_link::<P>(chain.headers[i], s.message(), s.header_bits(), s.size);
    let header = header_gadgets::<P>(
        chain.headers[i],
        chain.sizes[i],
        prev,
        prev_num(config, chain, circuit.num_targets, i as nat),
        s,
    );
    let message = circuit.num_targets + i * (16 * m + 548) + 289;
    assert(i * (16 * m + 548) >= 0) by (nonlinear_arith)
        requires
            i >= 0,
    ;
    lemma_bytes_link_at::<P>(s.parent_hash(), prev, s.parent_hash_bits(), 32, 0, 0);
    lemma_header_gadget(circuit, chain, precommits, signers, i as nat, 289);
    if 0 <= j < m {
        let l: int = if 0 <= k < 8 {
            k
        } else {
            0
        };
        lemma_bytes_link_at::<P>(chain.headers[i], s.message(), s.header_bits(), s.size, j, l);
        lemma_header_gadget(circuit, chain, precommits, signers, i as nat, (290 + 9 * j) as nat);
        lemma_header_gadget(
            circuit,
            chain,
            precommits,
            signers,
            i as nat,
            (291 + 9 * j + l) as nat,
        );
        assert(header[290 + 9 * j] == link[9 * j]);
        assert(header[291 + 9 * j + l] == link[9 * j + 1 + l]);
    }
    assert(s.message() =~= Seq::new((8 * m) as nat, |l: int| (message + l) as nat));
    assert(s.digest() =~= Seq::new(256, |l: int| (message + 8 * m + 1 + l) as nat));
}

/// The last four gadgets of a header: the message is as long as the header, and the number of the
/// header is one more than that of the head block, or of the header before.
pub proof fn step_counts_each_header<P>(
    circuit: Circuit<P>,
    chain: SubchainView,
    precommits: Seq<P>,
    signers: AuthoritySetSignersTarget,
    i: int,
)
    requires
        chain.fits(circuit.config),
        0 <= i < chain.headers.len(),
    ensures
        ({
            let after = step_circuit(circuit, chain, precommits, signers);
            let m = circuit.config.max_header_size;
            let at = circuit.gadgets.len() + chain.headers.len() * (m + 1) + i * (9 * m + 294)
                + 290 + 9 * m;
            let base = circuit.num_targets + i * (16 * m + 548);
            let one = (base + 16 * m + 546) as nat;
            &&& after.gadgets[at] == (GadgetView::<P>::Connect {
                x: (base + 289 + 8 * m) as nat,
                y: chain.sizes[i],
            })
            &&& after.gadgets[at + 1] == (GadgetView::<P>::One { one })
            &&& after.gadgets[at + 2] == (GadgetView::<P>::Add {
                x: if i == 0 {
                    chain.head_num
                } else {
                    (base - (16 * m + 548) + 32) as nat
                },
                y: one,
                sum: one + 1,
            })
            &&& after.gadgets[at + 3] == (GadgetView::<P>::Connect {
                x: one + 1,
                y: (base + 32) as nat,
            })
        }),
{
    let config = circuit.config;
    let m = config.max_header_size;
    let s = slots(config, circuit.num_targets, i as nat);
    let prev = prev_hash(config, chain, circuit.num_targets, i as nat);
    if i > 0 {
        assert(i * (16 * m + 548) == (i - 1) * (16 * m + 548) + (16 * m + 548)) by (
        nonlinear_arith);
    }
    assert(i * (16 * m + 548) >= 0) by (nonlinear_arith)
        requires
            i >= 0,
    ;
    lemma_bytes_link_at::<P>(s.parent_hash(), prev, s.parent_hash_bits(), 32, 0, 0);
    lemma_bytes_link_at::<P>(chain.headers[i], s.message(), s.header_bits(), s.size, 0, 0);
    lemma_header_gadget(circuit, chain, precommits, signers, i as nat, (290 + 9 * m) as nat);
    lemma_header_gadget(circuit, chain, precommits, signers, i as nat, (291 + 9 * m) as nat);
    lemma_header_gadget(circuit, chain, precommits, signers, i as nat, (292 + 9 * m) as nat);
    lemma_header_gadget(circuit, chain, precommits, signers, i as nat, (293 + 9 * m) as nat);
}

/// Last, the digest of the last header is summed up, byte by byte, and the block with its number
/// and these bytes as its hash is the one that the precommits have to justify.
pub proof fn step_justifies_the_last_header<P>(
    circuit: Circuit<P>,
    chain: SubchainView,
    precommits: Seq<P>,
    signers: AuthoritySetSignersTarget,
    j: int,
)
    requires
        chain.fits(circuit.config),
        0 <= j < 32,
    ensures
        ({
            let after = step_circuit(circuit, chain, precommits, signers);
            let m = circuit.config.max_header_size;
            let n = chain.headers.len();
            let at = circuit.gadgets.len() + n * (m + 1) + n * (9 * m + 294);
            let last = circuit.num_targets + (n - 1) * (16 * m + 548);
            let digest = last + 290 + 8 * m;
            let sums = last + 16 * m + 548;
            &&& after.gadgets[at + j] == (GadgetView::<P>::LeSum {
                bits: Seq::new(8, |l: int| (digest + 8 * j + 7 - l) as nat),
                sum: (sums + j) as nat,
            })
            &&& after.gadgets[at + 32] == (GadgetView::<P>::VerifyJustification {
                precommits,
                signers,
                num: (last + 32) as nat,
                hash: Seq::new(32, |l: int| (sums + l) as nat),
            })
        }),
{
    let config = circuit.config;
    let m = config.max_header_size;
    let n = chain.len();
    let base = circuit.num_targets;
    let s = slots(config, base, (n - 1) as nat);
    let last = base + (n - 1) * (16 * m + 548);
    let digest = last + 290 + 8 * m;
    let sums = last + 16 * m + 548;
    lemma_input_checks_at::<P>(config, chain, n, 0, 0);
    lemma_chain_at::<P>(config, chain, base, n, 0, 0);
    assert((n - 1) * (16 * m + 548) >= 0) by (nonlinear_arith)
        requires
            n >= 1,
    ;
    assert(s.digest().subrange(j * BYTE_BITS, (j + 1) * BYTE_BITS).reverse() =~= Seq::new(
        8,
        |l: int| (digest + 8 * j + 7 - l) as nat,
    ));
    assert(fresh(s.end(), HASH_SIZE as nat) =~= Seq::new(
        32,
        |l: int| (sums + l) as nat,
    ));
}

} // verus!
