//! What a step shows.
//!
//! The laws speak of every field that tells all bytes apart, of every way in which headers may
//! decode, hash and be justified, and of every witness.

use vstd::arithmetic::div_mod::{
    lemma_add_mod_noop, lemma_mod_bound, lemma_mod_self_0, lemma_mod_twice, lemma_small_mod,
};
use vstd::arithmetic::power2::{lemma2_to64, lemma_pow2_strictly_increases, pow2};
use vstd::prelude::*;

use crate::bits::{
    are_bytes, bits_be, bits_bytes_round_trip, bytes_be, bytes_bits_round_trip, ceil_log2,
    ceil_log2_is_least,
};
use crate::builder::{Circuit, StepConfig};
use crate::layout::{
    hash_bits, hash_sums, lemma_slots_fit, lemma_slots_next, prev_hash, prev_num, slots,
    step_circuit, step_gadgets, targets_per_header, targets_per_step, SubchainView,
};
use crate::lemmas::{
    header_at, header_in_range, header_values, lemma_all_hold_concat, lemma_chain_parts,
    lemma_chain_within, lemma_hash_sums, lemma_header_complete, lemma_header_sound,
    lemma_holds_prefix, lemma_input_checks, lemma_input_checks_within, lemma_reads_below_more,
    lemma_step_parts, lemma_trace_at, lemma_within_more, trace_at,
};
use crate::meaning::{
    all_hold, all_within, below, hash_bytes, values, HeaderTrace, Semantics, Subchain,
};
use crate::target::{fresh, AuthoritySetSignersTarget, BYTE_BITS, HASH_SIZE};

verus! {

/// What a witness says of the `n` headers of a step.
spec fn step_trace(config: StepConfig, base: nat, n: nat, w: Seq<nat>) -> Seq<HeaderTrace> {
    Seq::new(n, |i: int| trace_at(w, slots(config, base, i as nat)))
}

/// Where the gadgets of a step hold, the subchain is verified, with the trace in its slots.
proof fn lemma_step_sound<P>(
    sem: Semantics<P>,
    circuit: Circuit<P>,
    chain: SubchainView,
    precommits: Seq<P>,
    signers: AuthoritySetSignersTarget,
    w: Seq<nat>,
)
    requires
        sem.order >= pow2(BYTE_BITS as nat),
        chain.fits(circuit.config),
        w.len() >= step_circuit(circuit, chain, precommits, signers).num_targets,
        forall|i: int| 0 <= i < w.len() ==> #[trigger] w[i] < sem.order,
        all_hold(step_circuit(circuit, chain, precommits, signers).gadgets, sem, w),
    ensures
        chain.filled(w).verified(
            sem,
            circuit.config,
            precommits,
            signers,
            w,
            step_trace(circuit.config, circuit.num_targets, chain.len(), w),
        ),
        all_hold(circuit.gadgets, sem, w),
{
    let config = circuit.config;
    let base = circuit.num_targets;
    let n = chain.len();
    let t = step_trace(config, base, n, w);
    let c = chain.filled(w);
    let last = slots(config, base, (n - 1) as nat);
    lemma_all_hold_concat(
        circuit.gadgets,
        step_gadgets(config, chain, precommits, signers, base),
        sem,
        w,
    );
    lemma2_to64();
    lemma_step_parts(config, chain, precommits, signers, base, sem, w);
    lemma_input_checks(config, chain, n, sem, w);
    lemma_chain_parts(config, chain, base, n, sem, w);
    lemma_hash_sums(last.digest(), last.end(), sem, w);
    assert(c.in_range(config)) by {
        assert forall|i: int| 0 <= i < n implies header_in_range(
            config,
            #[trigger] c.headers[i],
            c.sizes[i],
        ) by {
            assert(c.headers[i] == values(w, chain.headers[i]));
        }
    }
    assert forall|i: int| 0 <= i < n implies #[trigger] c.linked_at(
        sem,
        t,
        i,
    ) by {
        let s = slots(config, base, i as nat);
        assert(all_hold(header_at::<P>(config, chain, base, i as nat), sem, w));
        lemma_slots_fit(config, base, i as nat, n);
        lemma_header_sound(
            chain.headers[i],
            chain.sizes[i],
            prev_hash(config, chain, base, i as nat),
            prev_num(config, chain, base, i as nat),
            s,
            sem,
            w,
        );
        assert(values(w, prev_hash(config, chain, base, i as nat)).take(hash_bits() as int)
            =~= c.hash_before(t, i));
    }
}

/// A witness that the circuit accepts after a step fills in a subchain that is well formed,
/// linked header by header to its head block, and justified. It is also accepted by the circuit
/// as it was before.
pub proof fn step_is_sound<P>(
    sem: Semantics<P>,
    circuit: Circuit<P>,
    chain: SubchainView,
    precommits: Seq<P>,
    signers: AuthoritySetSignersTarget,
    w: Seq<nat>,
) -> (t: Seq<HeaderTrace>)
    requires
        sem.order >= pow2(BYTE_BITS as nat),
        chain.fits(circuit.config),
        step_circuit(circuit, chain, precommits, signers).accepts(sem, w),
    ensures
        chain.filled(w).verified(sem, circuit.config, precommits, signers, w, t),
        all_hold(circuit.gadgets, sem, w),
{
    lemma_step_sound(sem, circuit, chain, precommits, signers, w);
    step_trace(circuit.config, circuit.num_targets, chain.len(), w)
}

/// The values that the first `n` headers put into their slots.
spec fn chain_values(c: Subchain, t: Seq<HeaderTrace>, n: nat) -> Seq<nat>
    decreases n,
{
    if n == 0 {
        Seq::empty()
    } else {
        chain_values(c, t, (n - 1) as nat) + header_values(c.headers[n - 1], c.sizes[n - 1], t[n
            - 1])
    }
}

/// Every header of a linked chain puts its own values into its own slots, and all of them are
/// field elements.
proof fn lemma_chain_values<P>(
    sem: Semantics<P>,
    c: Subchain,
    t: Seq<HeaderTrace>,
    n: nat,
    size: nat,
)
    requires
        sem.order >= pow2(BYTE_BITS as nat),
        n <= c.len(),
        c.linked(sem, t),
        forall|i: int| 0 <= i < c.len() ==> (#[trigger] c.headers[i]).len() == size,
        forall|i: int| 0 <= i < c.len() ==> (#[trigger] c.sizes[i]) < sem.order,
    ensures
        chain_values(c, t, n).len() == n * targets_per_header(size),
        forall|i: nat|
            i < n ==> chain_values(c, t, n).subrange(
                (i * targets_per_header(size)) as int,
                ((i + 1) * targets_per_header(size)) as int,
            ) == #[trigger] header_values(c.headers[i as int], c.sizes[i as int], t[i as int]),
        forall|x: int|
            0 <= x < chain_values(c, t, n).len() ==> #[trigger] chain_values(c, t, n)[x]
                < sem.order,
    decreases n,
{
    let k = targets_per_header(size);
    if n > 0 {
        let m = (n - 1) as nat;
        let head = chain_values(c, t, m);
        let tr = t[m as int];
        let block = header_values(c.headers[m as int], c.sizes[m as int], tr);
        let all = chain_values(c, t, n);
        lemma_chain_values(sem, c, t, m, size);
        assert(c.linked_at(sem, t, m as int));
        assert(block.len() == k);
        lemma2_to64();
        lemma_mod_bound(c.num_before(t, m as int) as int + 1, sem.order as int);
        assert forall|x: int| 0 <= x < block.len() implies #[trigger] block[x] < sem.order by {
            if x < HASH_SIZE {
                assert(block[x] == tr.parent_hash[x]);
            } else if x >= k - 2 {
            } else if x >= HASH_SIZE + 1 + hash_bits() + size * BYTE_BITS + 1 && x < HASH_SIZE + 1
                + hash_bits() + size * BYTE_BITS + 1 + hash_bits() {
                assert(block[x] == tr.digest[x - (HASH_SIZE + 1 + hash_bits() + size * BYTE_BITS
                    + 1)]);
            }
        }
        assert(n * k == m * k + k) by (nonlinear_arith)
            requires
                n == m + 1,
        ;
        assert forall|i: nat| i < n implies all.subrange(
            (i * k) as int,
            ((i + 1) * k) as int,
        ) == #[trigger] header_values(c.headers[i as int], c.sizes[i as int], t[i as int]) by {
            if i < m {
                assert(i * k <= (i + 1) * k <= m * k) by (nonlinear_arith)
                    requires
                        i < m,
                ;
                assert(all.subrange((i * k) as int, ((i + 1) * k) as int) =~= head.subrange(
                    (i * k) as int,
                    ((i + 1) * k) as int,
                ));
            } else {
                assert(all.subrange((i * k) as int, ((i + 1) * k) as int) =~= block);
            }
        }
    }
}

/// A witness that the circuit accepts before a step, and that fills in a well formed, linked
/// and justified subchain, extends to a witness that the circuit accepts after the step.
pub proof fn step_is_complete<P>(
    sem: Semantics<P>,
    circuit: Circuit<P>,
    chain: SubchainView,
    precommits: Seq<P>,
    signers: AuthoritySetSignersTarget,
    w: Seq<nat>,
    t: Seq<HeaderTrace>,
) -> (v: Seq<nat>)
    requires
        sem.order >= pow2(BYTE_BITS as nat),
        chain.fits(circuit.config),
        circuit.closed_over(sem),
        chain.below(circuit.num_targets),
        sem.reads_below(precommits, signers, circuit.num_targets),
        circuit.accepts(sem, w),
        chain.filled(w).verified(sem, circuit.config, precommits, signers, w, t),
    ensures
        v.take(w.len() as int) == w,
        step_circuit(circuit, chain, precommits, signers).accepts(sem, v),
{
    let config = circuit.config;
    let base = circuit.num_targets;
    let n = chain.len();
    let size = config.max_header_size as nat;
    let k = targets_per_header(size);
    let c = chain.filled(w);
    let last = slots(config, base, (n - 1) as nat);
    let middle = chain_values(c, t, n);
    let sums = hash_bytes(sem.order, t.last().digest);
    let v = w + middle + sums;
    lemma2_to64();
    assert(v.take(w.len() as int) =~= w);

    // The subchain is the same under both witnesses.
    lemma_filled_prefix(chain, v, base);
    assert forall|i: int| 0 <= i < c.len() implies (#[trigger] c.headers[i]).len() == size by {
        assert(chain.headers[i].len() == size);
    }
    assert forall|i: int| 0 <= i < c.len() implies (#[trigger] c.sizes[i]) < sem.order by {
        assert(chain.sizes[i] < base);
    }
    lemma_chain_values(sem, c, t, n, size);
    assert(c.linked_at(sem, t, n - 1));
    assert forall|j: int| 0 <= j < sums.len() implies #[trigger] sums[j] < sem.order by {
        lemma_mod_bound(bytes_be(t.last().digest)[j] as int, sem.order as int);
    }

    // Every header stands in its slots.
    assert forall|i: nat| i < n implies #[trigger] trace_at(v, slots(config, base, i))
        == t[i as int] && v.subrange(
        slots(config, base, i).base as int,
        slots(config, base, i).end() as int,
    ) == header_values(c.headers[i as int], c.sizes[i as int], t[i as int]) by {
        let s = slots(config, base, i);
        lemma_slots_next(config, base, i);
        lemma_slots_fit(config, base, i, n);
        assert(i * k <= (i + 1) * k <= n * k) by (nonlinear_arith)
            requires
                i < n,
        ;
        assert(v.subrange(s.base as int, s.end() as int) =~= middle.subrange(
            (i * k) as int,
            ((i + 1) * k) as int,
        ));
        assert(c.linked_at(sem, t, i as int));
        assert(v.len() == base + targets_per_step(config, n));
        lemma_trace_at(c.headers[i as int], c.sizes[i as int], t[i as int], s, v);
    }
    assert forall|i: nat| i < n implies all_hold(
        #[trigger] header_at::<P>(config, chain, base, i),
        sem,
        v,
    ) by {
        let s = slots(config, base, i);
        lemma_slots_fit(config, base, i, n);
        assert(trace_at(v, s) == t[i as int]);
        if i > 0 {
            assert(trace_at(v, slots(config, base, (i - 1) as nat)) == t[i - 1]);
        }
        assert(c.linked_at(sem, t, i as int));
        assert(values(v, chain.headers[i as int]) == chain.filled(v).headers[i as int]);
        assert(v[chain.sizes[i as int] as int] == chain.filled(v).sizes[i as int]);
        assert(values(v, prev_hash(config, chain, base, i)).take(hash_bits() as int)
            =~= c.hash_before(t, i as int));
        assert(are_bytes(c.headers[i as int]));
        lemma_header_complete(
            chain.headers[i as int],
            chain.sizes[i as int],
            prev_hash(config, chain, base, i),
            prev_num(config, chain, base, i),
            s,
            t[i as int],
            sem,
            v,
        );
    }
    lemma_chain_parts(config, chain, base, n, sem, v);

    // The inputs are in range.
    assert forall|i: int| 0 <= i < n implies header_in_range(
        config,
        values(v, #[trigger] chain.headers[i]),
        v[chain.sizes[i] as int],
    ) by {
        assert(values(v, chain.headers[i]) == chain.filled(v).headers[i]);
        assert(v[chain.sizes[i] as int] == chain.filled(v).sizes[i]);
        assert(are_bytes(c.headers[i]));
    }
    lemma_input_checks(config, chain, n, sem, v);

    // The bytes of the last hash follow the headers.
    lemma_slots_next(config, base, (n - 1) as nat);
    assert(trace_at(v, last) == t[n - 1]);
    assert(values(v, fresh(last.end(), HASH_SIZE as nat)) =~= sums);
    lemma_hash_sums(last.digest(), last.end(), sem, v);
    assert((sem.justifies)(precommits, signers, v, t.last().block_number, sums)
        == (sem.justifies)(precommits, signers, v.take(base as int), t.last().block_number, sums));
    lemma_step_parts(config, chain, precommits, signers, base, sem, v);

    // The rest of the circuit sees no difference.
    assert forall|i: int| 0 <= i < circuit.gadgets.len() implies (
    #[trigger] circuit.gadgets[i]).holds(sem, v) by {
        lemma_holds_prefix(circuit.gadgets[i], sem, v, base);
    }
    lemma_all_hold_concat(
        circuit.gadgets,
        step_gadgets(config, chain, precommits, signers, base),
        sem,
        v,
    );
    v
}

/// `v` goes on from `w`.
pub open spec fn extends(v: Seq<nat>, w: Seq<nat>) -> bool {
    &&& v.len() >= w.len()
    &&& v.take(w.len() as int) == w
}

/// The values of the targets known before a step can be completed to a witness of the circuit
/// after the step if and only if they fill in a well formed, linked and justified subchain.
pub proof fn step_accepts_exactly<P>(
    sem: Semantics<P>,
    circuit: Circuit<P>,
    chain: SubchainView,
    precommits: Seq<P>,
    signers: AuthoritySetSignersTarget,
    w: Seq<nat>,
)
    requires
        sem.order >= pow2(BYTE_BITS as nat),
        chain.fits(circuit.config),
        circuit.closed_over(sem),
        chain.below(circuit.num_targets),
        sem.reads_below(precommits, signers, circuit.num_targets),
        circuit.accepts(sem, w),
    ensures
        (exists|v: Seq<nat>|
            extends(v, w) && #[trigger] step_circuit(
                circuit,
                chain,
                precommits,
                signers,
            ).accepts(sem, v)) <==> (exists|t: Seq<HeaderTrace>|
            #[trigger] chain.filled(w).verified(
                sem,
                circuit.config,
                precommits,
                signers,
                w,
                t,
            )),
{
    let after = step_circuit(circuit, chain, precommits, signers);
    let base = circuit.num_targets;
    if exists|v: Seq<nat>| extends(v, w) && #[trigger] after.accepts(sem, v) {
        let v = choose|v: Seq<nat>| extends(v, w) && #[trigger] after.accepts(sem, v);
        let t = step_is_sound(sem, circuit, chain, precommits, signers, v);
        lemma_filled_prefix(chain, v, base);
        let num = t.last().block_number;
        let hash = hash_bytes(sem.order, t.last().digest);
        assert((sem.justifies)(precommits, signers, v, num, hash) == (sem.justifies)(
            precommits,
            signers,
            v.take(base as int),
            num,
            hash,
        ));
        assert(chain.filled(w).verified(sem, circuit.config, precommits, signers, w, t));
    }
    if exists|t: Seq<HeaderTrace>|
        #[trigger] chain.filled(w).verified(sem, circuit.config, precommits, signers, w, t) {
        let t = choose|t: Seq<HeaderTrace>|
            #[trigger] chain.filled(w).verified(sem, circuit.config, precommits, signers, w, t);
        let v = step_is_complete(sem, circuit, chain, precommits, signers, w, t);
        assert(extends(v, w) && after.accepts(sem, v));
    }
}

/// In a linked subchain the block numbers count up from that of the head block. They wrap
/// around only where they exceed the field.
pub proof fn block_numbers_count_up<P>(
    sem: Semantics<P>,
    c: Subchain,
    t: Seq<HeaderTrace>,
    i: nat,
)
    requires
        sem.order > 0,
        c.linked(sem, t),
        i < c.len(),
    ensures
        t[i as int].block_number == (c.head_num + i + 1) % sem.order,
        c.head_num + i + 1 < sem.order ==> t[i as int].block_number == c.head_num + i + 1,
    decreases i,
{
    assert(c.linked_at(sem, t, i as int));
    if i > 0 {
        block_numbers_count_up(sem, c, t, (i - 1) as nat);
        lemma_add_mod_noop((c.head_num + i) as int, 1, sem.order as int);
        lemma_add_mod_noop(((c.head_num + i) % sem.order) as int, 1, sem.order as int);
        lemma_mod_twice((c.head_num + i) as int, sem.order as int);
    }
    if c.head_num + i + 1 < sem.order {
        lemma_small_mod((c.head_num + i + 1) as nat, sem.order);
    }
}

/// In a linked subchain the parent hash of each header is, byte for byte, the hash of the block
/// before it: the head block or the header before.
pub proof fn parents_are_hashes<P>(sem: Semantics<P>, c: Subchain, t: Seq<HeaderTrace>, i: int)
    requires
        c.linked(sem, t),
        0 <= i < c.len(),
    ensures
        t[i].parent_hash == bytes_be(c.hash_before(t, i)),
{
    assert(c.linked_at(sem, t, i));
    bytes_bits_round_trip(t[i].parent_hash);
}

/// The hash that a step has justified is, byte for byte, the digest of the last header, wherever
/// the digest is made of bits.
pub proof fn justified_hash_is_the_digest(order: nat, digest: Seq<nat>)
    requires
        order >= pow2(BYTE_BITS as nat),
        digest.len() == hash_bits(),
        forall|i: int| 0 <= i < digest.len() ==> #[trigger] digest[i] <= 1,
    ensures
        hash_bytes(order, digest).len() == HASH_SIZE,
        are_bytes(hash_bytes(order, digest)),
        bits_be(hash_bytes(order, digest)) == digest,
{
    let bytes = bytes_be(digest);
    lemma2_to64();
    bits_bytes_round_trip(digest);
    assert forall|j: int| 0 <= j < bytes.len() implies #[trigger] hash_bytes(order, digest)[j]
        == bytes[j] by {
        lemma_small_mod(bytes[j], order);
    }
    assert(hash_bytes(order, digest) =~= bytes);
}

/// Two steps make one: where the second step starts from the last block of the first, the
/// headers of both are a verified subchain from the head block of the first.
pub proof fn steps_compose<P>(
    sem: Semantics<P>,
    config: StepConfig,
    first: Subchain,
    first_precommits: Seq<P>,
    first_signers: AuthoritySetSignersTarget,
    first_w: Seq<nat>,
    t1: Seq<HeaderTrace>,
    second: Subchain,
    precommits: Seq<P>,
    signers: AuthoritySetSignersTarget,
    w: Seq<nat>,
    t2: Seq<HeaderTrace>,
)
    requires
        first.verified(sem, config, first_precommits, first_signers, first_w, t1),
        second.verified(sem, config, precommits, signers, w, t2),
        second.head_hash == t1.last().digest,
        second.head_num == t1.last().block_number,
    ensures
        first.append(second).verified(sem, config, precommits, signers, w, t1 + t2),
{
    let c = first.append(second);
    let t = t1 + t2;
    let m = first.len() as int;
    assert forall|i: int| 0 <= i < c.len() implies header_in_range(
        config,
        #[trigger] c.headers[i],
        c.sizes[i],
    ) by {
        if i < m {
            assert(are_bytes(first.headers[i]));
        } else {
            assert(are_bytes(second.headers[i - m]));
        }
    }
    assert forall|i: int| 0 <= i < c.len() implies #[trigger] c.linked_at(
        sem,
        t,
        i,
    ) by {
        if i < m {
            assert(first.linked_at(sem, t1, i));
        } else {
            assert(second.linked_at(sem, t2, i - m));
        }
    }
    assert(t.last() == t2.last());
}

/// A step splits: where the headers of two subchains are verified as one, those of the second
/// are verified on their own from the last block of the first, by the same justification. Those
/// of the first are in range and linked.
pub proof fn steps_split<P>(
    sem: Semantics<P>,
    config: StepConfig,
    first: Subchain,
    second: Subchain,
    precommits: Seq<P>,
    signers: AuthoritySetSignersTarget,
    w: Seq<nat>,
    t: Seq<HeaderTrace>,
)
    requires
        first.append(second).verified(sem, config, precommits, signers, w, t),
        first.len() > 0,
        second.len() > 0,
        first.sizes.len() == first.len(),
        second.head_hash == t[first.len() - 1].digest,
        second.head_num == t[first.len() - 1].block_number,
    ensures
        second.verified(sem, config, precommits, signers, w, t.skip(first.len() as int)),
        first.in_range(config),
        first.linked(sem, t.take(first.len() as int)),
{
    let c = first.append(second);
    let m = first.len() as int;
    let t1 = t.take(m);
    let t2 = t.skip(m);
    assert forall|i: int| 0 <= i < first.len() implies header_in_range(
        config,
        #[trigger] first.headers[i],
        first.sizes[i],
    ) by {
        assert(are_bytes(c.headers[i]));
    }
    assert forall|i: int| 0 <= i < first.len() implies #[trigger] first.linked_at(sem, t1, i) by {
        assert(c.linked_at(sem, t, i));
    }
    assert forall|i: int| 0 <= i < second.len() implies header_in_range(
        config,
        #[trigger] second.headers[i],
        second.sizes[i],
    ) by {
        assert(are_bytes(c.headers[m + i]));
    }
    assert forall|i: int| 0 <= i < second.len() implies #[trigger] second.linked_at(sem, t2, i) by {
        assert(c.linked_at(sem, t, m + i));
    }
    assert(t2.last() == t.last());
}

/// No other head will do: where the headers of two subchains are verified as one and a header has
/// one decoding, the headers of the second are verified from no block but the last of the first,
/// whatever the justification.
pub proof fn no_other_head_fits<P>(
    sem: Semantics<P>,
    config: StepConfig,
    first: Subchain,
    second: Subchain,
    precommits: Seq<P>,
    signers: AuthoritySetSignersTarget,
    w: Seq<nat>,
    t: Seq<HeaderTrace>,
    second_precommits: Seq<P>,
    second_signers: AuthoritySetSignersTarget,
    second_w: Seq<nat>,
    second_t: Seq<HeaderTrace>,
)
    requires
        sem.order > 0,
        sem.decodes_once(),
        first.append(second).verified(sem, config, precommits, signers, w, t),
        first.len() > 0,
        first.sizes.len() == first.len(),
        second.verified(sem, config, second_precommits, second_signers, second_w, second_t),
        second.head_num < sem.order,
    ensures
        second.head_hash == t[first.len() - 1].digest,
        second.head_num == t[first.len() - 1].block_number,
{
    let c = first.append(second);
    let m = first.len() as int;
    let x = t[m - 1].block_number;
    let y = second.head_num;
    assert(c.linked_at(sem, t, m - 1));
    assert(c.linked_at(sem, t, m));
    assert(second.linked_at(sem, second_t, 0));
    assert(c.headers[m] == second.headers[0] && c.sizes[m] == second.sizes[0]);
    assert((sem.decodes)(second.headers[0], second.sizes[0], t[m].parent_hash, t[m].block_number));
    assert((sem.decodes)(
        second.headers[0],
        second.sizes[0],
        second_t[0].parent_hash,
        second_t[0].block_number,
    ));
    lemma_mod_bound(c.num_before(t, m - 1) as int + 1, sem.order as int);
    // Both numbers are below the order, and one more than each leaves the same rest.
    lemma_next_is_injective(x, y, sem.order);
}

/// Numbers below the order with the same successor are the same.
proof fn lemma_next_is_injective(x: nat, y: nat, order: nat)
    requires
        x < order,
        y < order,
        (x + 1) % order == (y + 1) % order,
    ensures
        x == y,
{
    if x + 1 < order {
        lemma_small_mod(x + 1, order);
    } else {
        lemma_mod_self_0(order as int);
    }
    if y + 1 < order {
        lemma_small_mod(y + 1, order);
    } else {
        lemma_mod_self_0(order as int);
    }
}

/// Where a header has one decoding and one digest, the headers alone determine what is known of
/// each of them, whatever block they start from.
pub proof fn traces_are_determined<P>(
    sem: Semantics<P>,
    c1: Subchain,
    t1: Seq<HeaderTrace>,
    c2: Subchain,
    t2: Seq<HeaderTrace>,
)
    requires
        sem.decodes_once(),
        sem.hashes_once(),
        c1.headers == c2.headers,
        c1.sizes == c2.sizes,
        c1.linked(sem, t1),
        c2.linked(sem, t2),
    ensures
        t1 == t2,
{
    assert forall|i: int| 0 <= i < t1.len() implies #[trigger] t1[i] == t2[i] by {
        assert(c1.linked_at(sem, t1, i));
        assert(c2.linked_at(sem, t2, i));
        let header = c1.headers[i];
        let size = c1.sizes[i];
        assert((sem.decodes)(header, size, t1[i].parent_hash, t1[i].block_number));
        assert((sem.decodes)(header, size, t2[i].parent_hash, t2[i].block_number));
        assert((sem.hashes)(bits_be(header), size, t1[i].digest));
        assert((sem.hashes)(bits_be(header), size, t2[i].digest));
    }
    assert(t1 =~= t2);
}

/// The headers of a step from the `a`-th on, headed by the header before them: its digest and its
/// block number are targets of the circuit after the step.
pub open spec fn rest_of_step<P>(circuit: Circuit<P>, chain: SubchainView, a: nat) -> SubchainView {
    let before = slots(circuit.config, circuit.num_targets, (a - 1) as nat);
    SubchainView {
        head_hash: before.digest(),
        head_num: before.block_number(),
        headers: chain.headers.skip(a as int),
        sizes: chain.sizes.skip(a as int),
    }
}

/// The headers of a step before the `a`-th.
spec fn start_of(c: Subchain, a: nat) -> Subchain {
    Subchain {
        head_hash: c.head_hash,
        head_num: c.head_num,
        headers: c.headers.take(a as int),
        sizes: c.sizes.take(a as int),
    }
}

/// Where a circuit accepts a step over some headers, it also accepts a step over the rest of them
/// alone, from the digest and the number of the header before the rest, by the same
/// justification.
pub proof fn rest_of_step_is_accepted<P>(
    sem: Semantics<P>,
    circuit: Circuit<P>,
    chain: SubchainView,
    precommits: Seq<P>,
    signers: AuthoritySetSignersTarget,
    w: Seq<nat>,
    a: nat,
) -> (v: Seq<nat>)
    requires
        sem.order >= pow2(BYTE_BITS as nat),
        chain.fits(circuit.config),
        circuit.closed_over(sem),
        chain.below(circuit.num_targets),
        sem.reads_below(precommits, signers, circuit.num_targets),
        step_circuit(circuit, chain, precommits, signers).accepts(sem, w),
        0 < a < chain.len(),
    ensures
        extends(v, w),
        step_circuit(
            step_circuit(circuit, chain, precommits, signers),
            rest_of_step(circuit, chain, a),
            precommits,
            signers,
        ).accepts(sem, v),
{
    let config = circuit.config;
    let base = circuit.num_targets;
    let n = chain.len();
    let after = step_circuit(circuit, chain, precommits, signers);
    let rest = rest_of_step(circuit, chain, a);
    let t = step_trace(config, base, n, w);
    let c = chain.filled(w);
    let first = start_of(c, a);
    let second = rest.filled(w);
    lemma_step_sound(sem, circuit, chain, precommits, signers, w);
    lemma_rest_filled(chain, w, a, rest);
    assert(second.head_hash =~= t[a - 1].digest);
    steps_split(sem, config, first, second, precommits, signers, w, t);

    // The rest is made of targets of the circuit after the step.
    lemma_slots_fit(config, base, (a - 1) as nat, n);
    assert forall|i: int| 0 <= i < rest.headers.len() implies (#[trigger] rest.headers[i]).len()
        == config.max_header_size && below(rest.headers[i], after.num_targets) by {
        assert(below(chain.headers[a + i], base));
    }
    assert(below(rest.sizes, after.num_targets)) by {
        assert forall|i: int| 0 <= i < rest.sizes.len() implies #[trigger] rest.sizes[i]
            < after.num_targets by {
            assert(chain.sizes[a + i] < base);
        }
    }
    step_stays_closed(sem, circuit, chain, precommits, signers);
    lemma_reads_below_more(precommits, signers, sem, base, after.num_targets);
    step_is_complete(sem, after, rest, precommits, signers, w, t.skip(a as int))
}

/// Splitting the values of a step at the `a`-th header gives the values of its two parts.
proof fn lemma_rest_filled(chain: SubchainView, w: Seq<nat>, a: nat, rest: SubchainView)
    requires
        0 < a < chain.len(),
        chain.sizes.len() == chain.len(),
        rest.headers == chain.headers.skip(a as int),
        rest.sizes == chain.sizes.skip(a as int),
    ensures
        start_of(chain.filled(w), a).append(rest.filled(w)) == chain.filled(w),
{
    let c = chain.filled(w);
    let both = start_of(c, a).append(rest.filled(w));
    assert(both.headers =~= c.headers) by {
        assert forall|i: int| 0 <= i < c.headers.len() implies #[trigger] both.headers[i]
            == c.headers[i] by {
            if i >= a {
                assert(rest.headers[i - a] == chain.headers[i]);
            }
        }
    }
    assert(both.sizes =~= c.sizes);
}

/// Where a header has one decoding, a circuit that accepts a step over some headers and then one
/// over the rest of them from any head accepts only the head that is the header before the rest.
pub proof fn rest_of_step_has_one_head<P>(
    sem: Semantics<P>,
    circuit: Circuit<P>,
    chain: SubchainView,
    precommits: Seq<P>,
    signers: AuthoritySetSignersTarget,
    rest: SubchainView,
    rest_precommits: Seq<P>,
    rest_signers: AuthoritySetSignersTarget,
    w: Seq<nat>,
    a: nat,
)
    requires
        sem.order >= pow2(BYTE_BITS as nat),
        sem.decodes_once(),
        chain.fits(circuit.config),
        0 < a < chain.len(),
        rest.headers == chain.headers.skip(a as int),
        rest.sizes == chain.sizes.skip(a as int),
        rest.fits(circuit.config),
        rest.head_num < step_circuit(circuit, chain, precommits, signers).num_targets,
        step_circuit(
            step_circuit(circuit, chain, precommits, signers),
            rest,
            rest_precommits,
            rest_signers,
        ).accepts(sem, w),
    ensures
        rest.filled(w).head_hash == rest_of_step(circuit, chain, a).filled(w).head_hash,
        rest.filled(w).head_num == rest_of_step(circuit, chain, a).filled(w).head_num,
{
    let config = circuit.config;
    let base = circuit.num_targets;
    let n = chain.len();
    let after = step_circuit(circuit, chain, precommits, signers);
    let t = step_trace(config, base, n, w);
    let rest_t = step_is_sound(sem, after, rest, rest_precommits, rest_signers, w);
    lemma_step_sound(sem, circuit, chain, precommits, signers, w);
    lemma_rest_filled(chain, w, a, rest);
    lemma2_to64();
    no_other_head_fits(
        sem,
        config,
        start_of(chain.filled(w), a),
        rest.filled(w),
        precommits,
        signers,
        w,
        t,
        rest_precommits,
        rest_signers,
        w,
        rest_t,
    );
    assert(rest_of_step(circuit, chain, a).filled(w).head_hash =~= t[a - 1].digest);
}

/// Where headers are padded to a power of two, a header that fills the whole padding is refused:
/// every verified size is below it.
pub proof fn sizes_stay_below_the_padding(config: StepConfig, c: Subchain, k: nat, i: int)
    requires
        config.max_header_size == pow2(k),
        k > 0,
        c.in_range(config),
        0 <= i < c.len(),
    ensures
        c.sizes[i] < config.max_header_size,
{
    lemma2_to64();
    ceil_log2_is_least(pow2(k));
    let e = ceil_log2(pow2(k));
    if e < k {
        lemma_pow2_strictly_increases(e, k);
    }
    assert(are_bytes(c.headers[i]));
    lemma_pow2_strictly_increases(0, k);
}

/// The subchain that a witness fills in depends on its first values only.
proof fn lemma_filled_prefix(chain: SubchainView, v: Seq<nat>, n: nat)
    requires
        chain.below(n),
        n <= v.len(),
    ensures
        chain.filled(v) == chain.filled(v.take(n as int)),
{
    let w = v.take(n as int);
    assert forall|positions: Seq<nat>| below(positions, n) implies #[trigger] values(v, positions)
        == values(w, positions) by {
        assert(values(v, positions) =~= values(w, positions));
    }
    assert(chain.filled(v).headers =~= chain.filled(w).headers) by {
        assert forall|i: int| 0 <= i < chain.len() implies #[trigger] chain.filled(v).headers[i]
            == chain.filled(w).headers[i] by {
            assert(below(chain.headers[i], n));
        }
    }
}

/// A step over the targets of a circuit leaves its gadgets speaking of its targets only.
pub proof fn step_stays_closed<P>(
    sem: Semantics<P>,
    circuit: Circuit<P>,
    chain: SubchainView,
    precommits: Seq<P>,
    signers: AuthoritySetSignersTarget,
)
    requires
        chain.fits(circuit.config),
        circuit.closed_over(sem),
        chain.below(circuit.num_targets),
        sem.reads_below(precommits, signers, circuit.num_targets),
    ensures
        step_circuit(circuit, chain, precommits, signers).closed_over(sem),
{
    let after = step_circuit(circuit, chain, precommits, signers);
    let config = circuit.config;
    let base = circuit.num_targets;
    let m = after.num_targets;
    let n = chain.len();
    assert forall|i: int| 0 <= i < circuit.gadgets.len() implies (
    #[trigger] circuit.gadgets[i]).within(sem, m) by {
        lemma_within_more(circuit.gadgets[i], sem, base, m);
    }
    assert(chain.below(m)) by {
        assert forall|i: int| 0 <= i < n implies below(#[trigger] chain.headers[i], m) by {
            assert(below(chain.headers[i], base));
        }
    }
    lemma_input_checks_within(config, chain, n, sem, m);
    lemma_chain_within(config, chain, base, n, sem, m);
    lemma_slots_fit(config, base, (n - 1) as nat, n);
    lemma_reads_below_more(precommits, signers, sem, base, m);
    let last = slots(config, base, (n - 1) as nat);
    let sums = hash_sums::<P>(last.digest(), last.end());
    assert(all_within(sums, sem, m)) by {
        assert forall|j: int| 0 <= j < sums.len() implies (#[trigger] sums[j]).within(sem, m) by {
            let part = last.digest().subrange(j * BYTE_BITS, (j + 1) * BYTE_BITS);
            assert forall|k: int| 0 <= k < part.len() implies #[trigger] part.reverse()[k] < m by {
                assert(part.reverse()[k] == last.digest()[j * BYTE_BITS + (BYTE_BITS - 1 - k)]);
            }
        }
    }
}

} // verus!
