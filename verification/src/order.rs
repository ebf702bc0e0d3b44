//! The order of a step: every gadget comes after those that bring the targets it reads.

use vstd::prelude::*;

use crate::builder::{Circuit, StepConfig};
use crate::gadget::GadgetView;
use crate::layout::{
    byte_link, bytes_link, chain_gadgets, hash_bits, hash_sums, header_gadgets, input_checks,
    lemma_slots_next, prev_hash, prev_num, slots, step_circuit, step_gadgets, targets_per_step,
    HeaderSlots, SubchainView,
};
use crate::meaning::below;
use crate::target::{fresh, AuthoritySetSignersTarget, BYTE_BITS, HASH_SIZE};

verus! {

impl<P> GadgetView<P> {
    /// The targets that the gadget takes from the rest of the circuit. What the precommits and
    /// the authority set of a justification are made of is not among them.
    pub open spec fn reads(self) -> Seq<nat> {
        match self {
            GadgetView::RangeCheck { x, n_log } => seq![x],
            GadgetView::SplitLe { integer, bits } => seq![integer],
            GadgetView::Connect { x, y } => seq![x, y],
            GadgetView::One { one } => Seq::empty(),
            GadgetView::Add { x, y, sum } => seq![x, y],
            GadgetView::LeSum { bits, sum } => bits,
            GadgetView::DecodeHeader { bytes, size, parent_hash, block_number } => bytes.push(
                size,
            ),
            GadgetView::Blake2b { message, message_len, digest } => Seq::empty(),
            GadgetView::VerifyJustification { precommits, signers, num, hash } => hash.push(num),
        }
    }

    /// The targets that the gadget brings into the circuit.
    pub open spec fn brings(self) -> Seq<nat> {
        match self {
            GadgetView::RangeCheck { x, n_log } => Seq::empty(),
            GadgetView::SplitLe { integer, bits } => bits,
            GadgetView::Connect { x, y } => Seq::empty(),
            GadgetView::One { one } => seq![one],
            GadgetView::Add { x, y, sum } => seq![sum],
            GadgetView::LeSum { bits, sum } => seq![sum],
            GadgetView::DecodeHeader { bytes, size, parent_hash, block_number } => parent_hash.push(
                block_number,
            ),
            GadgetView::Blake2b { message, message_len, digest } => message.push(message_len)
                + digest,
            GadgetView::VerifyJustification { precommits, signers, num, hash } => Seq::empty(),
        }
    }
}

/// The number of targets that a run of gadgets brings.
spec fn brought<P>(gadgets: Seq<GadgetView<P>>) -> nat
    decreases gadgets.len(),
{
    if gadgets.len() == 0 {
        0
    } else {
        brought(gadgets.drop_last()) + gadgets.last().brings().len()
    }
}

/// The `i`-th gadget reads nothing that is not there yet, and brings the next targets.
spec fn in_order_at<P>(gadgets: Seq<GadgetView<P>>, from: nat, i: int) -> bool {
    let known = from + brought(gadgets.take(i));
    &&& below(gadgets[i].reads(), known)
    &&& gadgets[i].brings() == fresh(known, gadgets[i].brings().len())
}

/// A run of gadgets, in a circuit of `from` targets, is in order.
spec fn in_order<P>(gadgets: Seq<GadgetView<P>>, from: nat) -> bool {
    forall|i: int| 0 <= i < gadgets.len() ==> #[trigger] in_order_at(gadgets, from, i)
}

proof fn lemma_brought_concat<P>(a: Seq<GadgetView<P>>, b: Seq<GadgetView<P>>)
    ensures
        brought(a + b) == brought(a) + brought(b),
    decreases b.len(),
{
    if b.len() == 0 {
        assert(a + b =~= a);
    } else {
        lemma_brought_concat(a, b.drop_last());
        assert((a + b).drop_last() =~= a + b.drop_last());
    }
}

proof fn lemma_in_order_concat<P>(a: Seq<GadgetView<P>>, b: Seq<GadgetView<P>>, from: nat)
    requires
        in_order(a, from),
        in_order(b, from + brought(a)),
    ensures
        in_order(a + b, from),
        brought(a + b) == brought(a) + brought(b),
{
    lemma_brought_concat(a, b);
    assert forall|i: int| 0 <= i < (a + b).len() implies #[trigger] in_order_at(
        a + b,
        from,
        i,
    ) by {
        if i < a.len() {
            assert((a + b).take(i) =~= a.take(i));
            assert(in_order_at(a, from, i));
        } else {
            let k = i - a.len();
            assert((a + b).take(i) =~= a + b.take(k));
            lemma_brought_concat(a, b.take(k));
            assert(in_order_at(b, from + brought(a), k));
        }
    }
}

proof fn lemma_in_order_one<P>(g: GadgetView<P>, from: nat)
    requires
        below(g.reads(), from),
        g.brings() == fresh(from, g.brings().len()),
    ensures
        in_order(seq![g], from),
        brought(seq![g]) == g.brings().len(),
{
    let gs = seq![g];
    assert(gs.take(0) =~= Seq::empty());
    assert(gs.drop_last() =~= Seq::empty());
    assert(brought(Seq::<GadgetView<P>>::empty()) == 0);
    assert forall|i: int| 0 <= i < gs.len() implies #[trigger] in_order_at(gs, from, i) by {}
}

/// Gadgets that bring nothing and read what is there are in order.
proof fn lemma_in_order_checks<P>(gs: Seq<GadgetView<P>>, from: nat)
    requires
        forall|i: int|
            0 <= i < gs.len() ==> (#[trigger] gs[i]).brings().len() == 0 && below(
                gs[i].reads(),
                from,
            ),
    ensures
        in_order(gs, from),
        brought(gs) == 0,
    decreases gs.len(),
{
    if gs.len() > 0 {
        let init = gs.drop_last();
        assert forall|i: int| 0 <= i < init.len() implies (#[trigger] init[i]).brings().len() == 0
            && below(init[i].reads(), from) by {
            assert(init[i] == gs[i]);
        }
        lemma_in_order_checks(init, from);
        let last = gs.last();
        assert(gs[gs.len() - 1].brings().len() == 0);
        assert(last.brings() =~= fresh(from, 0));
        lemma_in_order_one(last, from);
        lemma_in_order_concat(init, seq![last], from);
        assert(gs =~= init + seq![last]);
    }
}

proof fn lemma_byte_link_in_order<P>(byte: nat, expected: Seq<nat>, base: nat)
    requires
        byte < base,
        expected.len() == BYTE_BITS,
        below(expected, base),
    ensures
        in_order(byte_link::<P>(byte, expected, base), base),
        brought(byte_link::<P>(byte, expected, base)) == BYTE_BITS,
{
    let split = GadgetView::<P>::SplitLe { integer: byte, bits: fresh(base, BYTE_BITS as nat) };
    let connects = Seq::new(
        BYTE_BITS as nat,
        |k: int|
            GadgetView::<P>::Connect { x: expected[k], y: (base + BYTE_BITS as nat - 1 - k) as nat },
    );
    lemma_in_order_one(split, base);
    lemma_in_order_checks(connects, base + BYTE_BITS as nat);
    lemma_in_order_concat(seq![split], connects, base);
}

proof fn lemma_bytes_link_in_order<P>(bytes: Seq<nat>, expected: Seq<nat>, base: nat, n: nat)
    requires
        n <= bytes.len(),
        n * BYTE_BITS <= expected.len(),
        below(bytes, base),
        below(expected, base),
    ensures
        in_order(bytes_link::<P>(bytes, expected, base, n), base),
        brought(bytes_link::<P>(bytes, expected, base, n)) == n * BYTE_BITS,
    decreases n,
{
    if n > 0 {
        let m = (n - 1) as nat;
        let part = expected.subrange(m * BYTE_BITS, n * BYTE_BITS);
        let part_base = (base + m * BYTE_BITS) as nat;
        lemma_bytes_link_in_order::<P>(bytes, expected, base, m);
        assert(below(part, part_base)) by {
            assert forall|i: int| 0 <= i < part.len() implies #[trigger] part[i] < part_base by {
                assert(part[i] == expected[m * BYTE_BITS + i]);
            }
        }
        lemma_byte_link_in_order::<P>(bytes[m as int], part, part_base);
        lemma_in_order_concat(
            bytes_link::<P>(bytes, expected, base, m),
            byte_link(bytes[m as int], part, part_base),
            base,
        );
    }
}

proof fn lemma_header_in_order<P>(
    bytes: Seq<nat>,
    size: nat,
    prev: Seq<nat>,
    num: nat,
    s: HeaderSlots,
)
    requires
        bytes.len() == s.size,
        prev.len() >= hash_bits(),
        below(bytes, s.base),
        size < s.base,
        below(prev, s.base),
        num < s.base,
    ensures
        in_order(header_gadgets::<P>(bytes, size, prev, num, s), s.base),
        brought(header_gadgets::<P>(bytes, size, prev, num, s)) == s.end() - s.base,
{
    let decode = GadgetView::<P>::DecodeHeader {
        bytes,
        size,
        parent_hash: s.parent_hash(),
        block_number: s.block_number(),
    };
    let parent = bytes_link::<P>(
        s.parent_hash(),
        prev,
        s.parent_hash_bits(),
        HASH_SIZE as nat,
    );
    let hash = GadgetView::<P>::Blake2b {
        message: s.message(),
        message_len: s.message_len(),
        digest: s.digest(),
    };
    let message = bytes_link::<P>(bytes, s.message(), s.header_bits(), s.size);
    let len = GadgetView::<P>::Connect { x: s.message_len(), y: size };
    let one = GadgetView::<P>::One { one: s.one() };
    let sum = GadgetView::<P>::Add { x: num, y: s.one(), sum: s.expected_number() };
    let same = GadgetView::<P>::Connect { x: s.expected_number(), y: s.block_number() };

    assert(decode.brings() =~= fresh(s.base, (HASH_SIZE + 1) as nat));
    lemma_in_order_one(decode, s.base);
    lemma_bytes_link_in_order::<P>(
        s.parent_hash(),
        prev,
        s.parent_hash_bits(),
        HASH_SIZE as nat,
    );
    lemma_in_order_concat(seq![decode], parent, s.base);
    let c1 = seq![decode] + parent;
    let b1 = s.parent_hash_bits() + hash_bits();
    assert(hash.brings() =~= fresh(b1, s.size * BYTE_BITS as nat + 1 + hash_bits()));
    lemma_in_order_one(hash, b1);
    lemma_in_order_concat(c1, seq![hash], s.base);
    let c2 = c1 + seq![hash];
    lemma_bytes_link_in_order::<P>(bytes, s.message(), s.header_bits(), s.size);
    lemma_in_order_concat(c2, message, s.base);
    let c3 = c2 + message;
    assert(len.brings() =~= fresh(s.one(), 0));
    lemma_in_order_one(len, s.one());
    assert(one.brings() =~= fresh(s.one(), 1));
    lemma_in_order_one(one, s.one());
    lemma_in_order_concat(seq![len], seq![one], s.one());
    assert(sum.brings() =~= fresh(s.expected_number(), 1));
    lemma_in_order_one(sum, s.expected_number());
    lemma_in_order_concat(seq![len] + seq![one], seq![sum], s.one());
    assert(same.brings() =~= fresh(s.end(), 0));
    lemma_in_order_one(same, s.end());
    lemma_in_order_concat(seq![len] + seq![one] + seq![sum], seq![same], s.one());
    let tail = seq![len] + seq![one] + seq![sum] + seq![same];
    assert(tail =~= seq![len, one, sum, same]);
    lemma_in_order_concat(c3, tail, s.base);
}

proof fn lemma_chain_in_order<P>(config: StepConfig, chain: SubchainView, base: nat, n: nat)
    requires
        chain.fits(config),
        chain.below(base),
        n <= chain.len(),
    ensures
        in_order(chain_gadgets::<P>(config, chain, base, n), base),
        brought(chain_gadgets::<P>(config, chain, base, n)) == slots(config, base, n).base - base,
        slots(config, base, n).base >= base,
    decreases n,
{
    if n > 0 {
        let i = (n - 1) as nat;
        lemma_chain_in_order::<P>(config, chain, base, i);
        lemma_slots_next(config, base, i);
        if i > 0 {
            lemma_slots_next(config, base, (i - 1) as nat);
        }
        assert(below(chain.headers[i as int], base));
        lemma_header_in_order::<P>(
            chain.headers[i as int],
            chain.sizes[i as int],
            prev_hash(config, chain, base, i),
            prev_num(config, chain, base, i),
            slots(config, base, i),
        );
        lemma_in_order_concat(
            chain_gadgets::<P>(config, chain, base, i),
            header_gadgets::<P>(
                chain.headers[i as int],
                chain.sizes[i as int],
                prev_hash(config, chain, base, i),
                prev_num(config, chain, base, i),
                slots(config, base, i),
            ),
            base,
        );
    }
}

proof fn lemma_input_checks_read<P>(config: StepConfig, chain: SubchainView, base: nat, n: nat)
    requires
        chain.fits(config),
        chain.below(base),
        n <= chain.len(),
    ensures
        forall|i: int|
            0 <= i < input_checks::<P>(config, chain, n).len() ==> (#[trigger] input_checks::<P>(
                config,
                chain,
                n,
            )[i]).brings().len() == 0 && below(
                input_checks::<P>(config, chain, n)[i].reads(),
                base,
            ),
    decreases n,
{
    if n > 0 {
        let init = input_checks::<P>(config, chain, (n - 1) as nat);
        let bytes = chain.headers[n - 1];
        let all = input_checks::<P>(config, chain, n);
        lemma_input_checks_read::<P>(config, chain, base, (n - 1) as nat);
        assert(below(bytes, base));
        assert forall|i: int| 0 <= i < all.len() implies (#[trigger] all[i]).brings().len() == 0
            && below(all[i].reads(), base) by {
            if i < init.len() {
                assert(all[i] == init[i]);
            } else if i < init.len() + bytes.len() {
                assert(all[i].reads() =~= seq![bytes[i - init.len()]]);
            } else {
                assert(all[i].reads() =~= seq![chain.sizes[n - 1]]);
            }
        }
    }
}

proof fn lemma_hash_sums_in_order<P>(hash: Seq<nat>, base: nat, n: nat)
    requires
        hash.len() == hash_bits(),
        below(hash, base),
        n <= HASH_SIZE,
    ensures
        in_order(hash_sums::<P>(hash, base).take(n as int), base),
        brought(hash_sums::<P>(hash, base).take(n as int)) == n,
    decreases n,
{
    let sums = hash_sums::<P>(hash, base);
    if n == 0 {
        assert(sums.take(0) =~= Seq::empty());
    } else {
        let j = n - 1;
        let g = sums[j];
        lemma_hash_sums_in_order::<P>(hash, base, j as nat);
        let part = hash.subrange(j * BYTE_BITS, (j + 1) * BYTE_BITS);
        assert(below(g.reads(), base)) by {
            assert forall|k: int| 0 <= k < g.reads().len() implies #[trigger] g.reads()[k]
                < base by {
                assert(g.reads()[k] == hash[j * BYTE_BITS + (BYTE_BITS - 1 - k)]);
            }
        }
        assert(g.brings() =~= fresh((base + j) as nat, 1));
        lemma_in_order_one(g, (base + j) as nat);
        lemma_in_order_concat(sums.take(j), seq![g], base);
        assert(sums.take(n as int) =~= sums.take(j) + seq![g]);
    }
}

proof fn lemma_step_in_order<P>(
    config: StepConfig,
    chain: SubchainView,
    precommits: Seq<P>,
    signers: AuthoritySetSignersTarget,
    base: nat,
)
    requires
        chain.fits(config),
        chain.below(base),
    ensures
        in_order(step_gadgets(config, chain, precommits, signers, base), base),
        brought(step_gadgets(config, chain, precommits, signers, base)) == targets_per_step(
            config,
            chain.len(),
        ),
{
    let n = chain.len();
    let last = slots(config, base, (n - 1) as nat);
    let inputs = input_checks::<P>(config, chain, n);
    let headers = chain_gadgets::<P>(config, chain, base, n);
    let sums = hash_sums::<P>(last.digest(), last.end());
    let justification = GadgetView::<P>::VerifyJustification {
        precommits,
        signers,
        num: last.block_number(),
        hash: fresh(last.end(), HASH_SIZE as nat),
    };
    lemma_input_checks_read::<P>(config, chain, base, n);
    lemma_in_order_checks(inputs, base);
    lemma_chain_in_order::<P>(config, chain, base, n);
    lemma_in_order_concat(inputs, headers, base);
    lemma_slots_next(config, base, (n - 1) as nat);
    lemma_hash_sums_in_order::<P>(last.digest(), last.end(), HASH_SIZE as nat);
    assert(sums.take(HASH_SIZE as int) =~= sums);
    lemma_in_order_concat(inputs + headers, sums, base);
    let end = last.end() + HASH_SIZE as nat;
    assert(justification.brings() =~= fresh(end, 0));
    lemma_in_order_one(justification, end);
    lemma_in_order_concat(inputs + headers + sums, seq![justification], base);
}

/// In a run that is in order, what the first `m` gadgets bring are the next targets, each brought
/// by one of them.
proof fn lemma_brought_by<P>(gs: Seq<GadgetView<P>>, from: nat, m: int, x: nat) -> (j: int)
    requires
        in_order(gs, from),
        0 <= m <= gs.len(),
        from <= x < from + brought(gs.take(m)),
    ensures
        0 <= j < m,
        gs[j].brings().contains(x),
    decreases m,
{
    if m == 0 {
        assert(gs.take(0) =~= Seq::empty());
        0
    } else {
        assert(gs.take(m).drop_last() =~= gs.take(m - 1));
        let known = from + brought(gs.take(m - 1));
        if x < known {
            lemma_brought_by(gs, from, m - 1, x)
        } else {
            assert(in_order_at(gs, from, m - 1));
            assert(gs[m - 1].brings()[x - known] == x);
            m - 1
        }
    }
}

/// More gadgets bring no fewer targets.
proof fn lemma_brought_grows<P>(gs: Seq<GadgetView<P>>, i: int, j: int)
    requires
        0 <= i <= j <= gs.len(),
    ensures
        brought(gs.take(i)) <= brought(gs.take(j)),
    decreases j,
{
    if i < j {
        assert(gs.take(j).drop_last() =~= gs.take(j - 1));
        lemma_brought_grows(gs, i, j - 1);
    }
}

/// The targets that a gadget brings lie between those known before it and those known after it.
proof fn lemma_brings_span<P>(gs: Seq<GadgetView<P>>, from: nat, j: int, x: nat)
    requires
        in_order(gs, from),
        0 <= j < gs.len(),
        gs[j].brings().contains(x),
    ensures
        from + brought(gs.take(j)) <= x < from + brought(gs.take(j + 1)),
{
    assert(in_order_at(gs, from, j));
    assert(gs.take(j + 1).drop_last() =~= gs.take(j));
    assert(gs.take(j + 1).last() == gs[j]);
}

/// A step can be laid out gadget by gadget. Whatever target its `i`-th gadget reads was there
/// before the step, or was brought by a gadget that the step recorded earlier.
pub proof fn step_reads_only_what_is_there<P>(
    circuit: Circuit<P>,
    chain: SubchainView,
    precommits: Seq<P>,
    signers: AuthoritySetSignersTarget,
    i: int,
    x: nat,
)
    requires
        chain.fits(circuit.config),
        chain.below(circuit.num_targets),
        circuit.gadgets.len() <= i < step_circuit(
            circuit,
            chain,
            precommits,
            signers,
        ).gadgets.len(),
        step_circuit(circuit, chain, precommits, signers).gadgets[i].reads().contains(x),
    ensures
        x < circuit.num_targets || exists|j: int|
            circuit.gadgets.len() <= j < i && (#[trigger] step_circuit(
                circuit,
                chain,
                precommits,
                signers,
            ).gadgets[j]).brings().contains(x),
{
    let base = circuit.num_targets;
    let off = circuit.gadgets.len();
    let after = step_circuit(circuit, chain, precommits, signers);
    let gs = step_gadgets(circuit.config, chain, precommits, signers, base);
    lemma_step_in_order(circuit.config, chain, precommits, signers, base);
    let k = i - off;
    assert(after.gadgets[i] == gs[k]);
    assert(in_order_at(gs, base, k));
    if x >= base {
        let j = lemma_brought_by(gs, base, k, x);
        assert(after.gadgets[off + j] == gs[j]);
    }
}

/// The targets that a step adds are those that its gadgets bring, and each of them is brought by
/// one gadget, at one place.
pub proof fn step_brings_each_target_once<P>(
    circuit: Circuit<P>,
    chain: SubchainView,
    precommits: Seq<P>,
    signers: AuthoritySetSignersTarget,
    x: nat,
)
    requires
        chain.fits(circuit.config),
        chain.below(circuit.num_targets),
    ensures
        ({
            let after = step_circuit(circuit, chain, precommits, signers);
            let off = circuit.gadgets.len();
            &&& circuit.num_targets <= x < after.num_targets <==> exists|j: int|
                off <= j < after.gadgets.len() && (
                #[trigger] after.gadgets[j]).brings().contains(x)
            &&& forall|j: int, k: int|
                off <= j < after.gadgets.len() && off <= k < after.gadgets.len() && (
                #[trigger] after.gadgets[j]).brings().contains(x) && (
                #[trigger] after.gadgets[k]).brings().contains(x) ==> j == k
            &&& forall|j: int|
                off <= j < after.gadgets.len() ==> (
                #[trigger] after.gadgets[j]).brings().no_duplicates()
        }),
{
    let base = circuit.num_targets;
    let off = circuit.gadgets.len();
    let after = step_circuit(circuit, chain, precommits, signers);
    let gs = step_gadgets(circuit.config, chain, precommits, signers, base);
    lemma_step_in_order(circuit.config, chain, precommits, signers, base);
    assert(gs.take(gs.len() as int) =~= gs);
    if base <= x < after.num_targets {
        let j = lemma_brought_by(gs, base, gs.len() as int, x);
        assert(after.gadgets[off + j] == gs[j]);
    }
    assert forall|j: int|
        off <= j < after.gadgets.len() && (#[trigger] after.gadgets[j]).brings().contains(
            x,
        ) implies base <= x < after.num_targets by {
        assert(after.gadgets[j] == gs[j - off]);
        lemma_brings_span(gs, base, j - off, x);
        lemma_brought_grows(gs, j - off + 1, gs.len() as int);
    }
    assert forall|j: int, k: int|
        off <= j < after.gadgets.len() && off <= k < after.gadgets.len() && (
        #[trigger] after.gadgets[j]).brings().contains(x) && (
        #[trigger] after.gadgets[k]).brings().contains(x) implies j == k by {
        let a = j - off;
        let b = k - off;
        assert(after.gadgets[j] == gs[a] && after.gadgets[k] == gs[b]);
        lemma_brings_span(gs, base, a, x);
        lemma_brings_span(gs, base, b, x);
        if a < b {
            lemma_brought_grows(gs, a + 1, b);
        } else if b < a {
            lemma_brought_grows(gs, b + 1, a);
        }
    }
    assert forall|j: int| off <= j < after.gadgets.len() implies (
    #[trigger] after.gadgets[j]).brings().no_duplicates() by {
        assert(after.gadgets[j] == gs[j - off]);
        assert(in_order_at(gs, base, j - off));
    }
}

} // verus!
