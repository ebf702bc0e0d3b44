//! What the parts of a step demand of a witness, part by part.

use vstd::arithmetic::div_mod::lemma_small_mod;
use vstd::arithmetic::power2::pow2;
use vstd::prelude::*;

use crate::bits::{
    are_bytes, bit, bits_be, bits_le, ceil_log2, le_value, le_value_bits, le_value_of_bits,
};
use crate::builder::StepConfig;
use crate::gadget::GadgetView;
use crate::layout::{
    byte_checks, byte_link, bytes_link, chain_gadgets, hash_bits, hash_sums, header_gadgets,
    input_checks, lemma_slots_fit, prev_hash, prev_num, slots, step_gadgets, targets_per_step,
    HeaderSlots, SubchainView,
};
use crate::meaning::{
    all_hold, all_within, below, follows, hash_bytes, values, HeaderTrace, Semantics,
};
use crate::target::{fresh, AuthoritySetSignersTarget, BYTE_BITS, HASH_SIZE};

verus! {

/// Two runs of gadgets hold together if and only if each of them does.
pub proof fn lemma_all_hold_concat<P>(
    a: Seq<GadgetView<P>>,
    b: Seq<GadgetView<P>>,
    sem: Semantics<P>,
    w: Seq<nat>,
)
    ensures
        all_hold(a + b, sem, w) <==> all_hold(a, sem, w) && all_hold(b, sem, w),
{
    let c = a + b;
    if all_hold(c, sem, w) {
        assert forall|i: int| 0 <= i < a.len() implies (#[trigger] a[i]).holds(sem, w) by {
            assert(c[i].holds(sem, w));
        }
        assert forall|i: int| 0 <= i < b.len() implies (#[trigger] b[i]).holds(sem, w) by {
            assert(c[a.len() + i].holds(sem, w));
        }
    }
    if all_hold(a, sem, w) && all_hold(b, sem, w) {
        assert forall|i: int| 0 <= i < c.len() implies (#[trigger] c[i]).holds(sem, w) by {
            if i < a.len() {
                assert(a[i].holds(sem, w));
            } else {
                assert(b[i - a.len()].holds(sem, w));
            }
        }
    }
}

/// A linked byte is a byte, and the expected bits are its bits.
proof fn lemma_byte_link_sound<P>(
    byte: nat,
    expected: Seq<nat>,
    base: nat,
    sem: Semantics<P>,
    w: Seq<nat>,
)
    requires
        sem.order >= pow2(BYTE_BITS as nat),
        all_hold(byte_link(byte, expected, base), sem, w),
    ensures
        w[byte as int] < pow2(BYTE_BITS as nat),
        forall|k: int|
            0 <= k < BYTE_BITS ==> w[#[trigger] expected[k] as int] == bit(
                w[byte as int],
                (BYTE_BITS - 1 - k) as nat,
            ),
{
    let link = byte_link::<P>(byte, expected, base);
    let b = values(w, fresh(base, BYTE_BITS as nat));
    assert(link[0].holds(sem, w));
    le_value_bits(b);
    lemma_small_mod(le_value(b), sem.order);
    assert forall|k: int| 0 <= k < BYTE_BITS implies w[#[trigger] expected[k] as int] == bit(
        w[byte as int],
        (BYTE_BITS - 1 - k) as nat,
    ) by {
        assert(link[1 + k].holds(sem, w));
        assert(b[BYTE_BITS - 1 - k] == w[base + BYTE_BITS - 1 - k]);
    }
}

/// A byte whose bits stand where they belong is linked.
proof fn lemma_byte_link_complete<P>(
    byte: nat,
    expected: Seq<nat>,
    base: nat,
    sem: Semantics<P>,
    w: Seq<nat>,
)
    requires
        sem.order >= pow2(BYTE_BITS as nat),
        w[byte as int] < pow2(BYTE_BITS as nat),
        forall|k: int|
            0 <= k < BYTE_BITS ==> #[trigger] w[base + k] == bit(w[byte as int], k as nat),
        forall|k: int|
            0 <= k < BYTE_BITS ==> w[#[trigger] expected[k] as int] == bit(
                w[byte as int],
                (BYTE_BITS - 1 - k) as nat,
            ),
    ensures
        all_hold(byte_link(byte, expected, base), sem, w),
{
    let link = byte_link::<P>(byte, expected, base);
    let v = w[byte as int];
    let b = values(w, fresh(base, BYTE_BITS as nat));
    assert(b =~= Seq::new(BYTE_BITS as nat, |k: int| bit(v, k as nat)));
    le_value_of_bits(v, BYTE_BITS as nat);
    lemma_small_mod(v, sem.order);
    assert(link[0].holds(sem, w));
    assert forall|i: int| 0 <= i < link.len() implies (#[trigger] link[i]).holds(sem, w) by {
        if i > 0 {
            let k = i - 1;
            assert(w[base + (BYTE_BITS - 1 - k)] == bit(v, (BYTE_BITS - 1 - k) as nat));
            assert(w[expected[k] as int] == bit(v, (BYTE_BITS - 1 - k) as nat));
        }
    }
}

/// Linked bytes are bytes, and the expected bits are their bits.
pub proof fn lemma_bytes_link_sound<P>(
    bytes: Seq<nat>,
    expected: Seq<nat>,
    base: nat,
    n: nat,
    sem: Semantics<P>,
    w: Seq<nat>,
)
    requires
        sem.order >= pow2(BYTE_BITS as nat),
        n <= bytes.len(),
        expected.len() >= n * BYTE_BITS,
        all_hold(bytes_link(bytes, expected, base, n), sem, w),
    ensures
        forall|j: int|
            0 <= j < n ==> w[#[trigger] bytes[j] as int] < pow2(BYTE_BITS as nat),
        forall|i: int|
            0 <= i < n * BYTE_BITS ==> w[#[trigger] expected[i] as int] == bits_be(
                values(w, bytes),
            )[i],
    decreases n,
{
    if n > 0 {
        let m = (n - 1) as nat;
        let part = expected.subrange(m * BYTE_BITS, n * BYTE_BITS);
        let part_base = (base + m * BYTE_BITS) as nat;
        lemma_all_hold_concat(
            bytes_link(bytes, expected, base, m),
            byte_link(bytes[m as int], part, part_base),
            sem,
            w,
        );
        lemma_bytes_link_sound(bytes, expected, base, m, sem, w);
        lemma_byte_link_sound(bytes[m as int], part, part_base, sem, w);
        assert forall|i: int| 0 <= i < n * BYTE_BITS implies w[#[trigger] expected[i] as int]
            == bits_be(values(w, bytes))[i] by {
            if i >= m * BYTE_BITS {
                assert(part[i - m * BYTE_BITS] == expected[i]);
            }
        }
    }
}

/// Bytes whose bits stand where they belong are linked.
pub proof fn lemma_bytes_link_complete<P>(
    bytes: Seq<nat>,
    expected: Seq<nat>,
    base: nat,
    n: nat,
    sem: Semantics<P>,
    w: Seq<nat>,
)
    requires
        sem.order >= pow2(BYTE_BITS as nat),
        n <= bytes.len(),
        expected.len() >= n * BYTE_BITS,
        forall|j: int|
            0 <= j < n ==> w[#[trigger] bytes[j] as int] < pow2(BYTE_BITS as nat),
        forall|i: int|
            0 <= i < n * BYTE_BITS ==> #[trigger] w[base + i] == bits_le(values(w, bytes))[i],
        forall|i: int|
            0 <= i < n * BYTE_BITS ==> w[#[trigger] expected[i] as int] == bits_be(
                values(w, bytes),
            )[i],
    ensures
        all_hold(bytes_link(bytes, expected, base, n), sem, w),
    decreases n,
{
    if n > 0 {
        let m = (n - 1) as nat;
        let part = expected.subrange(m * BYTE_BITS, n * BYTE_BITS);
        let part_base = (base + m * BYTE_BITS) as nat;
        lemma_bytes_link_complete(bytes, expected, base, m, sem, w);
        assert(w[bytes[m as int] as int] < pow2(BYTE_BITS as nat));
        assert forall|k: int| 0 <= k < BYTE_BITS implies #[trigger] w[part_base + k] == bit(
            w[bytes[m as int] as int],
            k as nat,
        ) by {
            assert(w[base + (m * BYTE_BITS + k)] == bits_le(values(w, bytes))[m * BYTE_BITS + k]);
        }
        assert forall|k: int| 0 <= k < BYTE_BITS implies w[#[trigger] part[k] as int] == bit(
            w[bytes[m as int] as int],
            (BYTE_BITS - 1 - k) as nat,
        ) by {
            assert(part[k] == expected[m * BYTE_BITS + k]);
        }
        lemma_byte_link_complete(bytes[m as int], part, part_base, sem, w);
        lemma_all_hold_concat(
            bytes_link(bytes, expected, base, m),
            byte_link(bytes[m as int], part, part_base),
            sem,
            w,
        );
    }
}

/// What a witness says of the header in the given slots.
pub open spec fn trace_at(w: Seq<nat>, s: HeaderSlots) -> HeaderTrace {
    HeaderTrace {
        parent_hash: values(w, s.parent_hash()),
        block_number: w[s.block_number() as int],
        digest: values(w, s.digest()),
    }
}

/// The values that a header puts into its slots.
pub open spec fn header_values(header: Seq<nat>, size: nat, t: HeaderTrace) -> Seq<nat> {
    t.parent_hash + seq![t.block_number] + bits_le(t.parent_hash) + bits_be(header) + seq![size]
        + t.digest + bits_le(header) + seq![1nat, t.block_number]
}

/// The gadgets of a header are its five runs.
proof fn lemma_header_parts<P>(
    bytes: Seq<nat>,
    size: nat,
    prev_hash: Seq<nat>,
    prev_num: nat,
    s: HeaderSlots,
    sem: Semantics<P>,
    w: Seq<nat>,
)
    ensures
        all_hold(header_gadgets(bytes, size, prev_hash, prev_num, s), sem, w) <==> {
            &&& (sem.decodes)(
                values(w, bytes),
                w[size as int],
                values(w, s.parent_hash()),
                w[s.block_number() as int],
            )
            &&& all_hold(
                bytes_link(s.parent_hash(), prev_hash, s.parent_hash_bits(), HASH_SIZE as nat),
                sem,
                w,
            )
            &&& (sem.hashes)(
                values(w, s.message()),
                w[s.message_len() as int],
                values(w, s.digest()),
            )
            &&& all_hold(bytes_link(bytes, s.message(), s.header_bits(), s.size), sem, w)
            &&& w[s.message_len() as int] == w[size as int]
            &&& w[s.one() as int] == 1
            &&& w[s.expected_number() as int] == (w[prev_num as int] + w[s.one() as int])
                % sem.order
            &&& w[s.expected_number() as int] == w[s.block_number() as int]
        },
{
    let decode = GadgetView::<P>::DecodeHeader {
        bytes,
        size,
        parent_hash: s.parent_hash(),
        block_number: s.block_number(),
    };
    let parent = bytes_link::<P>(
        s.parent_hash(),
        prev_hash,
        s.parent_hash_bits(),
        HASH_SIZE as nat,
    );
    let hash = GadgetView::<P>::Blake2b {
        message: s.message(),
        message_len: s.message_len(),
        digest: s.digest(),
    };
    let message = bytes_link::<P>(bytes, s.message(), s.header_bits(), s.size);
    let len = GadgetView::<P>::Connect { x: s.message_len(), y: size };
    let one = GadgetView::<P>::One { one: s.one() };
    let sum = GadgetView::<P>::Add { x: prev_num, y: s.one(), sum: s.expected_number() };
    let num = GadgetView::<P>::Connect { x: s.expected_number(), y: s.block_number() };
    let tail = seq![len, one, sum, num];
    lemma_all_hold_concat(seq![decode], parent, sem, w);
    lemma_all_hold_concat(seq![decode] + parent, seq![hash], sem, w);
    lemma_all_hold_concat(seq![decode] + parent + seq![hash], message, sem, w);
    lemma_all_hold_concat(seq![decode] + parent + seq![hash] + message, tail, sem, w);
    assert(all_hold(seq![decode], sem, w) <==> decode.holds(sem, w)) by {
        assert(seq![decode][0] == decode);
    }
    assert(all_hold(seq![hash], sem, w) <==> hash.holds(sem, w)) by {
        assert(seq![hash][0] == hash);
    }
    assert(all_hold(tail, sem, w) <==> len.holds(sem, w) && one.holds(sem, w) && sum.holds(sem, w)
        && num.holds(sem, w)) by {
        assert(tail[0] == len && tail[1] == one && tail[2] == sum && tail[3] == num);
    }
}

/// Where the gadgets of a header hold, the header follows the block before it.
pub proof fn lemma_header_sound<P>(
    bytes: Seq<nat>,
    size: nat,
    prev_hash: Seq<nat>,
    prev_num: nat,
    s: HeaderSlots,
    sem: Semantics<P>,
    w: Seq<nat>,
)
    requires
        sem.order >= pow2(BYTE_BITS as nat),
        bytes.len() == s.size,
        prev_hash.len() >= hash_bits(),
        s.end() <= w.len(),
        forall|i: int| 0 <= i < w.len() ==> #[trigger] w[i] < sem.order,
        all_hold(header_gadgets(bytes, size, prev_hash, prev_num, s), sem, w),
    ensures
        follows(
            sem,
            values(w, bytes),
            w[size as int],
            values(w, prev_hash).take(hash_bits() as int),
            w[prev_num as int],
            trace_at(w, s),
        ),
{
    let t = trace_at(w, s);
    lemma_header_parts(bytes, size, prev_hash, prev_num, s, sem, w);
    lemma_bytes_link_sound(
        s.parent_hash(),
        prev_hash,
        s.parent_hash_bits(),
        HASH_SIZE as nat,
        sem,
        w,
    );
    lemma_bytes_link_sound(bytes, s.message(), s.header_bits(), s.size, sem, w);
    assert forall|i: int| 0 <= i < t.parent_hash.len() implies #[trigger] t.parent_hash[i] < pow2(
        BYTE_BITS as nat,
    ) by {
        assert(w[s.parent_hash()[i] as int] < pow2(BYTE_BITS as nat));
    }
    assert(values(w, prev_hash).take(hash_bits() as int) =~= bits_be(t.parent_hash)) by {
        assert forall|i: int| 0 <= i < hash_bits() implies values(w, prev_hash)[i]
            == #[trigger] bits_be(t.parent_hash)[i] by {
            assert(w[prev_hash[i] as int] == bits_be(values(w, s.parent_hash()))[i]);
        }
    }
    assert(values(w, s.message()) =~= bits_be(values(w, bytes))) by {
        assert forall|i: int| 0 <= i < s.size * BYTE_BITS implies values(w, s.message())[i]
            == #[trigger] bits_be(values(w, bytes))[i] by {
            assert(w[s.message()[i] as int] == bits_be(values(w, bytes))[i]);
        }
    }
}

/// Slots that hold the values of a header give its trace back.
pub proof fn lemma_trace_at(
    header: Seq<nat>,
    size: nat,
    t: HeaderTrace,
    s: HeaderSlots,
    w: Seq<nat>,
)
    requires
        header.len() == s.size,
        t.parent_hash.len() == HASH_SIZE,
        t.digest.len() == hash_bits(),
        s.end() <= w.len(),
        w.subrange(s.base as int, s.end() as int) == header_values(header, size, t),
    ensures
        trace_at(w, s) == t,
        forall|x: int|
            0 <= x < header_values(header, size, t).len() ==> #[trigger] w[s.base + x]
                == header_values(header, size, t)[x],
{
    let block = header_values(header, size, t);
    assert forall|x: int| 0 <= x < block.len() implies #[trigger] w[s.base + x] == block[x] by {
        assert(w.subrange(s.base as int, s.end() as int)[x] == w[s.base + x]);
    }
    assert(values(w, s.parent_hash()) =~= t.parent_hash);
    assert(w[s.base + HASH_SIZE] == block[HASH_SIZE as int]);
    assert(values(w, s.digest()) =~= t.digest) by {
        assert forall|i: int| 0 <= i < hash_bits() implies #[trigger] values(w, s.digest())[i]
            == t.digest[i] by {
            let x = s.message_len() + 1 - s.base + i;
            assert(w[s.base + x] == block[x]);
        }
    }
}

/// Where a header follows the block before it, and its slots hold its values, its gadgets hold.
pub proof fn lemma_header_complete<P>(
    bytes: Seq<nat>,
    size: nat,
    prev_hash: Seq<nat>,
    prev_num: nat,
    s: HeaderSlots,
    t: HeaderTrace,
    sem: Semantics<P>,
    w: Seq<nat>,
)
    requires
        sem.order >= pow2(BYTE_BITS as nat),
        bytes.len() == s.size,
        prev_hash.len() >= hash_bits(),
        are_bytes(values(w, bytes)),
        follows(
            sem,
            values(w, bytes),
            w[size as int],
            values(w, prev_hash).take(hash_bits() as int),
            w[prev_num as int],
            t,
        ),
        s.end() <= w.len(),
        w.subrange(s.base as int, s.end() as int) == header_values(
            values(w, bytes),
            w[size as int],
            t,
        ),
    ensures
        all_hold(header_gadgets(bytes, size, prev_hash, prev_num, s), sem, w),
{
    let header = values(w, bytes);
    let block = header_values(header, w[size as int], t);
    lemma_trace_at(header, w[size as int], t, s, w);
    assert(values(w, s.message()) =~= bits_be(header)) by {
        assert forall|i: int| 0 <= i < s.size * BYTE_BITS implies #[trigger] values(
            w,
            s.message(),
        )[i] == bits_be(header)[i] by {
            let x = s.parent_hash_bits() + hash_bits() - s.base + i;
            assert(w[s.base + x] == block[x]);
        }
    }
    assert(w[s.message_len() as int] == w[size as int]) by {
        let x = s.message_len() - s.base;
        assert(w[s.base + x] == block[x]);
    }
    assert(w[s.one() as int] == 1 && w[s.expected_number() as int] == t.block_number) by {
        let x = s.one() - s.base;
        assert(w[s.base + x] == block[x]);
        assert(w[s.base + (x + 1)] == block[x + 1]);
    }
    assert forall|i: int| 0 <= i < hash_bits() implies #[trigger] w[s.parent_hash_bits() + i]
        == bits_le(values(w, s.parent_hash()))[i] by {
        let x = s.parent_hash_bits() - s.base + i;
        assert(w[s.base + x] == block[x]);
    }
    assert forall|i: int| 0 <= i < s.size * BYTE_BITS implies #[trigger] w[s.header_bits() + i]
        == bits_le(values(w, bytes))[i] by {
        let x = s.header_bits() - s.base + i;
        assert(w[s.base + x] == block[x]);
    }
    assert forall|i: int| 0 <= i < hash_bits() implies w[#[trigger] prev_hash[i] as int]
        == bits_be(values(w, s.parent_hash()))[i] by {
        assert(values(w, prev_hash).take(hash_bits() as int)[i] == w[prev_hash[i] as int]);
    }
    assert forall|j: int| 0 <= j < HASH_SIZE implies w[#[trigger] s.parent_hash()[j] as int] < pow2(
        BYTE_BITS as nat,
    ) by {
        assert(values(w, s.parent_hash())[j] == t.parent_hash[j]);
    }
    assert forall|i: int| 0 <= i < s.size * BYTE_BITS implies w[#[trigger] s.message()[i] as int]
        == bits_be(values(w, bytes))[i] by {
        assert(values(w, s.message())[i] == bits_be(header)[i]);
    }
    assert forall|j: int| 0 <= j < s.size implies w[#[trigger] bytes[j] as int] < pow2(
        BYTE_BITS as nat,
    ) by {
        assert(values(w, bytes)[j] == w[bytes[j] as int]);
    }
    lemma_bytes_link_complete(
        s.parent_hash(),
        prev_hash,
        s.parent_hash_bits(),
        HASH_SIZE as nat,
        sem,
        w,
    );
    lemma_bytes_link_complete(bytes, s.message(), s.header_bits(), s.size, sem, w);
    lemma_header_parts(bytes, size, prev_hash, prev_num, s, sem, w);
}

/// The gadgets of the `i`-th header of a step.
pub open spec fn header_at<P>(
    config: StepConfig,
    chain: SubchainView,
    base: nat,
    i: nat,
) -> Seq<GadgetView<P>> {
    header_gadgets(
        chain.headers[i as int],
        chain.sizes[i as int],
        prev_hash(config, chain, base, i),
        prev_num(config, chain, base, i),
        slots(config, base, i),
    )
}

/// The gadgets of a chain hold if and only if those of each header do.
pub proof fn lemma_chain_parts<P>(
    config: StepConfig,
    chain: SubchainView,
    base: nat,
    n: nat,
    sem: Semantics<P>,
    w: Seq<nat>,
)
    ensures
        all_hold(chain_gadgets(config, chain, base, n), sem, w) <==> forall|i: nat|
            i < n ==> all_hold(#[trigger] header_at(config, chain, base, i), sem, w),
    decreases n,
{
    if n > 0 {
        let m = (n - 1) as nat;
        lemma_chain_parts(config, chain, base, m, sem, w);
        lemma_all_hold_concat(
            chain_gadgets(config, chain, base, m),
            header_at(config, chain, base, m),
            sem,
            w,
        );
    }
}

/// A header is made of bytes, and its size is in range.
pub open spec fn header_in_range(config: StepConfig, header: Seq<nat>, size: nat) -> bool {
    let size_bits = ceil_log2(config.max_header_size as nat);
    &&& are_bytes(header)
    &&& size_bits == 0 || size < pow2(size_bits)
}

/// The checks of the inputs hold if and only if the inputs are in range.
pub proof fn lemma_input_checks<P>(
    config: StepConfig,
    chain: SubchainView,
    n: nat,
    sem: Semantics<P>,
    w: Seq<nat>,
)
    requires
        n <= chain.len(),
    ensures
        all_hold(input_checks(config, chain, n), sem, w) <==> forall|i: int|
            0 <= i < n ==> header_in_range(
                config,
                values(w, #[trigger] chain.headers[i]),
                w[chain.sizes[i] as int],
            ),
    decreases n,
{
    if n > 0 {
        let m = (n - 1) as nat;
        let bytes = chain.headers[m as int];
        let checks = byte_checks::<P>(bytes);
        let size_check = GadgetView::<P>::RangeCheck {
            x: chain.sizes[m as int],
            n_log: ceil_log2(config.max_header_size as nat),
        };
        lemma_input_checks(config, chain, m, sem, w);
        lemma_all_hold_concat(input_checks(config, chain, m), checks, sem, w);
        lemma_all_hold_concat(
            input_checks(config, chain, m) + checks,
            seq![size_check],
            sem,
            w,
        );
        assert(all_hold(seq![size_check], sem, w) <==> size_check.holds(sem, w)) by {
            assert(seq![size_check][0] == size_check);
        }
        assert(all_hold(checks, sem, w) <==> are_bytes(values(w, bytes))) by {
            if all_hold(checks, sem, w) {
                assert forall|j: int| 0 <= j < bytes.len() implies #[trigger] values(w, bytes)[j]
                    < pow2(BYTE_BITS as nat) by {
                    assert(checks[j].holds(sem, w));
                }
            }
            if are_bytes(values(w, bytes)) {
                assert forall|j: int| 0 <= j < checks.len() implies (#[trigger] checks[j]).holds(
                    sem,
                    w,
                ) by {
                    assert(values(w, bytes)[j] < pow2(BYTE_BITS as nat));
                }
            }
        }
        assert(header_in_range(config, values(w, bytes), w[chain.sizes[m as int] as int])
            <==> are_bytes(values(w, bytes)) && size_check.holds(sem, w));
    }
}

/// The sums over a hash hold if and only if they give its bytes.
pub proof fn lemma_hash_sums<P>(hash: Seq<nat>, base: nat, sem: Semantics<P>, w: Seq<nat>)
    requires
        sem.order > 0,
        hash.len() == hash_bits(),
    ensures
        all_hold(hash_sums(hash, base), sem, w) <==> values(w, fresh(base, HASH_SIZE as nat))
            == hash_bytes(sem.order, values(w, hash)),
{
    let sums = hash_sums::<P>(hash, base);
    let got = values(w, fresh(base, HASH_SIZE as nat));
    let want = hash_bytes(sem.order, values(w, hash));
    assert forall|j: int| 0 <= j < HASH_SIZE implies (#[trigger] sums[j]).holds(sem, w) == (got[j]
        == want[j]) by {
        let part = hash.subrange(j * BYTE_BITS, (j + 1) * BYTE_BITS);
        assert(values(w, part.reverse()) =~= values(w, hash).subrange(
            j * BYTE_BITS,
            (j + 1) * BYTE_BITS,
        ).reverse());
    }
    if all_hold(sums, sem, w) {
        assert forall|j: int| 0 <= j < HASH_SIZE implies got[j] == want[j] by {
            assert(sums[j].holds(sem, w));
        }
        assert(got =~= want);
    }
    if got == want {
        assert forall|j: int| 0 <= j < sums.len() implies (#[trigger] sums[j]).holds(sem, w) by {
            assert(got[j] == want[j]);
        }
    }
}

/// The gadgets of a step are those of its four parts.
pub proof fn lemma_step_parts<P>(
    config: StepConfig,
    chain: SubchainView,
    precommits: Seq<P>,
    signers: AuthoritySetSignersTarget,
    base: nat,
    sem: Semantics<P>,
    w: Seq<nat>,
)
    requires
        chain.len() > 0,
    ensures
        all_hold(step_gadgets(config, chain, precommits, signers, base), sem, w) <==> {
            let last = slots(config, base, (chain.len() - 1) as nat);
            let hash = fresh(last.end(), HASH_SIZE as nat);
            &&& all_hold(input_checks(config, chain, chain.len()), sem, w)
            &&& all_hold(chain_gadgets(config, chain, base, chain.len()), sem, w)
            &&& all_hold(hash_sums(last.digest(), last.end()), sem, w)
            &&& (sem.justifies)(
                precommits,
                signers,
                w,
                w[last.block_number() as int],
                values(w, hash),
            )
        },
{
    let last = slots(config, base, (chain.len() - 1) as nat);
    let inputs = input_checks::<P>(config, chain, chain.len());
    let headers = chain_gadgets::<P>(config, chain, base, chain.len());
    let sums = hash_sums::<P>(last.digest(), last.end());
    let justification = GadgetView::<P>::VerifyJustification {
        precommits,
        signers,
        num: last.block_number(),
        hash: fresh(last.end(), HASH_SIZE as nat),
    };
    lemma_all_hold_concat(inputs, headers, sem, w);
    lemma_all_hold_concat(inputs + headers, sums, sem, w);
    lemma_all_hold_concat(inputs + headers + sums, seq![justification], sem, w);
    assert(all_hold(seq![justification], sem, w) <==> justification.holds(sem, w)) by {
        assert(seq![justification][0] == justification);
    }
}

/// A gadget within the first `n` targets holds of a witness if and only if it holds of its
/// first `n` values.
pub proof fn lemma_holds_prefix<P>(g: GadgetView<P>, sem: Semantics<P>, w: Seq<nat>, n: nat)
    requires
        g.within(sem, n),
        n <= w.len(),
    ensures
        g.holds(sem, w) <==> g.holds(sem, w.take(n as int)),
{
    let v = w.take(n as int);
    assert forall|positions: Seq<nat>| below(positions, n) implies #[trigger] values(w, positions)
        == values(v, positions) by {
        assert(values(w, positions) =~= values(v, positions));
    }
    match g {
        GadgetView::VerifyJustification { precommits, signers, num, hash } => {
            assert((sem.justifies)(precommits, signers, w, w[num as int], values(w, hash))
                == (sem.justifies)(precommits, signers, v, w[num as int], values(w, hash)));
        },
        _ => {},
    }
}

/// What lies within the first `n` targets lies within any more.
pub proof fn lemma_within_more<P>(g: GadgetView<P>, sem: Semantics<P>, n: nat, m: nat)
    requires
        g.within(sem, n),
        n <= m,
    ensures
        g.within(sem, m),
{
    match g {
        GadgetView::VerifyJustification { precommits, signers, num, hash } => {
            lemma_reads_below_more(precommits, signers, sem, n, m);
        },
        _ => {},
    }
}

/// Precommits and signers made of the first `n` targets are made of any more.
pub proof fn lemma_reads_below_more<P>(
    precommits: Seq<P>,
    signers: AuthoritySetSignersTarget,
    sem: Semantics<P>,
    n: nat,
    m: nat,
)
    requires
        sem.reads_below(precommits, signers, n),
        n <= m,
    ensures
        sem.reads_below(precommits, signers, m),
{
    assert forall|w: Seq<nat>, num: nat, hash: Seq<nat>| w.len() >= m implies (sem.justifies)(
        precommits,
        signers,
        w,
        num,
        hash,
    ) == #[trigger] (sem.justifies)(precommits, signers, w.take(m as int), num, hash) by {
        let v = w.take(m as int);
        assert(v.take(n as int) =~= w.take(n as int));
        assert((sem.justifies)(precommits, signers, w, num, hash) == (sem.justifies)(
            precommits,
            signers,
            w.take(n as int),
            num,
            hash,
        ));
        assert((sem.justifies)(precommits, signers, v, num, hash) == (sem.justifies)(
            precommits,
            signers,
            v.take(n as int),
            num,
            hash,
        ));
    }
}

/// Linked bytes lie within the targets of the bytes, of the expected bits and of their own bits.
proof fn lemma_bytes_link_within<P>(
    bytes: Seq<nat>,
    expected: Seq<nat>,
    base: nat,
    n: nat,
    sem: Semantics<P>,
    m: nat,
)
    requires
        n <= bytes.len(),
        n * BYTE_BITS <= expected.len(),
        below(bytes, m),
        below(expected, m),
        base + n * BYTE_BITS <= m,
    ensures
        all_within(bytes_link(bytes, expected, base, n), sem, m),
    decreases n,
{
    if n > 0 {
        let k = (n - 1) as nat;
        let part = expected.subrange(k * BYTE_BITS, n * BYTE_BITS);
        lemma_bytes_link_within(bytes, expected, base, k, sem, m);
        assert forall|i: int| 0 <= i < part.len() implies #[trigger] part[i] < m by {
            assert(part[i] == expected[k * BYTE_BITS + i]);
        }
    }
}

/// The gadgets of a header lie within its inputs and its slots.
proof fn lemma_header_within<P>(
    bytes: Seq<nat>,
    size: nat,
    prev_hash: Seq<nat>,
    prev_num: nat,
    s: HeaderSlots,
    sem: Semantics<P>,
    m: nat,
)
    requires
        bytes.len() == s.size,
        prev_hash.len() >= hash_bits(),
        below(bytes, m),
        size < m,
        below(prev_hash, m),
        prev_num < m,
        s.end() <= m,
    ensures
        all_within(header_gadgets(bytes, size, prev_hash, prev_num, s), sem, m),
{
    lemma_bytes_link_within(
        s.parent_hash(),
        prev_hash,
        s.parent_hash_bits(),
        HASH_SIZE as nat,
        sem,
        m,
    );
    lemma_bytes_link_within(bytes, s.message(), s.header_bits(), s.size, sem, m);
}

/// The gadgets of the first headers of a step lie within the inputs and the slots.
pub proof fn lemma_chain_within<P>(
    config: StepConfig,
    chain: SubchainView,
    base: nat,
    n: nat,
    sem: Semantics<P>,
    m: nat,
)
    requires
        chain.fits(config),
        chain.below(base),
        n <= chain.len(),
        base + targets_per_step(config, chain.len()) <= m,
    ensures
        all_within(chain_gadgets(config, chain, base, n), sem, m),
    decreases n,
{
    if n > 0 {
        let i = (n - 1) as nat;
        lemma_chain_within(config, chain, base, i, sem, m);
        lemma_slots_fit(config, base, i, chain.len());
        if i > 0 {
            lemma_slots_fit(config, base, (i - 1) as nat, chain.len());
        }
        assert(below(chain.headers[i as int], base));
        lemma_header_within(
            chain.headers[i as int],
            chain.sizes[i as int],
            prev_hash(config, chain, base, i),
            prev_num(config, chain, base, i),
            slots(config, base, i),
            sem,
            m,
        );
    }
}

/// The checks of the inputs lie within the inputs.
pub proof fn lemma_input_checks_within<P>(
    config: StepConfig,
    chain: SubchainView,
    n: nat,
    sem: Semantics<P>,
    m: nat,
)
    requires
        chain.fits(config),
        chain.below(m),
        n <= chain.len(),
    ensures
        all_within(input_checks(config, chain, n), sem, m),
    decreases n,
{
    if n > 0 {
        lemma_input_checks_within(config, chain, (n - 1) as nat, sem, m);
        assert(below(chain.headers[n - 1], m));
    }
}

} // verus!
