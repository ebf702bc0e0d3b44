use subchain_step::builder::{CircuitBuilder, StepConfig};
use subchain_step::gadget::Gadget;
use subchain_step::step::{CircuitBuilderStep, VerifySubchainTarget};
use subchain_step::target::{
    AuthoritySetSignersTarget, BoolTarget, EncodedHeaderTarget, FinalizedBlockTarget, Target,
};

fn config(max_header_size: usize, max_num_headers_per_step: usize) -> StepConfig {
    StepConfig { max_header_size, max_num_headers_per_step }
}

fn target(index: usize) -> Target {
    Target { index }
}

fn bit(index: usize) -> BoolTarget {
    BoolTarget { target: target(index) }
}

fn signers() -> AuthoritySetSignersTarget {
    AuthoritySetSignersTarget { pub_keys: Vec::new(), commitment: Vec::new(), set_id: target(0) }
}

/// A subchain over the first targets: the hash of the head block, its number, then the bytes and
/// the size of each header.
fn subchain(builder: &mut CircuitBuilder<u32>, n: usize, size: usize) -> VerifySubchainTarget {
    let head_block_hash = (0..256).map(|_| builder.add_virtual_bool_target()).collect();
    let head_block_num = builder.add_virtual_target();
    let mut encoded_headers = Vec::new();
    let mut encoded_header_sizes = Vec::new();
    for _ in 0..n {
        let mut header = Vec::new();
        for _ in 0..size {
            header.push(builder.add_virtual_target());
        }
        encoded_headers.push(header);
        encoded_header_sizes.push(builder.add_virtual_target());
    }
    VerifySubchainTarget { head_block_hash, head_block_num, encoded_headers, encoded_header_sizes }
}

#[test]
fn gadgets_are_recorded_with_their_targets() {
    let mut b: CircuitBuilder<u32> = CircuitBuilder::new(config(4, 1));
    let x = b.add_virtual_target();
    let y = b.add_virtual_target();
    assert_eq!((x, y), (target(0), target(1)));
    b.connect(x, y);
    b.range_check(y, 7);
    assert_eq!(b.split_le(x, 3), vec![bit(2), bit(3), bit(4)]);
    assert_eq!(b.one(), target(5));
    assert_eq!(b.add(x, target(5)), target(6));
    assert_eq!(b.le_sum(vec![bit(4), bit(3)]), target(7));
    assert_eq!(b.config(), config(4, 1));
    assert_eq!(b.num_targets(), 8);
    let g = b.gadgets();
    assert_eq!(g.len(), 6);
    assert!(matches!(&g[0], Gadget::Connect { x: p, y: q } if *p == x && *q == y));
    assert!(matches!(&g[1], Gadget::RangeCheck { x: p, n_log: 7 } if *p == y));
    assert!(matches!(&g[2], Gadget::SplitLe { integer, bits }
        if *integer == x && *bits == vec![bit(2), bit(3), bit(4)]));
    assert!(matches!(&g[3], Gadget::One { one } if *one == target(5)));
    assert!(matches!(&g[4], Gadget::Add { x: p, y: q, sum }
        if *p == x && *q == target(5) && *sum == target(6)));
    assert!(matches!(&g[5], Gadget::LeSum { bits, sum }
        if *bits == vec![bit(4), bit(3)] && *sum == target(7)));
}

#[test]
fn larger_gadgets_bring_their_outputs() {
    let mut b: CircuitBuilder<u32> = CircuitBuilder::new(config(4, 1));
    let byte = b.add_virtual_target();
    let size = b.add_virtual_target();
    let decoded =
        b.decode_header(EncodedHeaderTarget { header_bytes: vec![byte], header_size: size });
    assert_eq!(decoded.parent_hash, (2..34).map(target).collect::<Vec<Target>>());
    assert_eq!(decoded.block_number, target(34));
    let hash = b.make_blake2b_circuit(8, 2);
    assert_eq!(hash.message, (35..43).map(bit).collect::<Vec<BoolTarget>>());
    assert_eq!(hash.message_len, target(43));
    assert_eq!(hash.digest, (44..60).map(bit).collect::<Vec<BoolTarget>>());
    b.verify_justification(
        vec![7, 8],
        signers(),
        FinalizedBlockTarget { num: decoded.block_number, hash: vec![byte] },
    );
    let g = b.gadgets();
    assert_eq!((g.len(), b.num_targets()), (3, 60));
    assert!(matches!(&g[0], Gadget::DecodeHeader { encoded, decoded }
        if encoded.header_bytes == vec![byte] && encoded.header_size == size
            && decoded.block_number == target(34)));
    assert!(matches!(&g[1], Gadget::Blake2b { hash } if hash.digest.len() == 16));
    assert!(matches!(&g[2], Gadget::VerifyJustification { signed_precommits, block, .. }
        if *signed_precommits == vec![7, 8] && block.num == target(34)));
}

#[test]
fn a_step_over_two_headers_gadget_by_gadget() {
    let size = 3;
    let mut b: CircuitBuilder<u32> = CircuitBuilder::new(config(size, 2));
    let chain = subchain(&mut b, 2, size);
    let base = b.num_targets();
    assert_eq!(base, 257 + 2 * (size + 1));
    b.step(chain.clone(), vec![1, 2, 3], signers());
    let per_header = 548 + 16 * size;
    assert_eq!(b.num_targets(), base + 2 * per_header + 32);
    let g = b.gadgets();

    // The inputs: every byte, then the size, of one header after the other.
    for i in 0..2 {
        for j in 0..size {
            assert!(matches!(&g[i * (size + 1) + j], Gadget::RangeCheck { x, n_log: 8 }
                if *x == chain.encoded_headers[i][j]));
        }
        assert!(matches!(&g[i * (size + 1) + size], Gadget::RangeCheck { x, n_log: 2 }
            if *x == chain.encoded_header_sizes[i]));
    }

    // The headers.
    let gadgets_per_header = 1 + 32 * 9 + 1 + size * 9 + 4;
    for i in 0..2 {
        let s = base + i * per_header;
        let h = &g[2 * (size + 1) + i * gadgets_per_header..];
        let digest = |i: usize, k: usize| target(base + i * per_header + 290 + 8 * size + k);
        assert!(matches!(&h[0], Gadget::DecodeHeader { encoded, decoded }
            if encoded.header_bytes == chain.encoded_headers[i]
                && encoded.header_size == chain.encoded_header_sizes[i]
                && decoded.parent_hash == (s..s + 32).map(target).collect::<Vec<Target>>()
                && decoded.block_number == target(s + 32)));
        for j in 0..32 {
            let bits = s + 33 + 8 * j;
            assert!(matches!(&h[1 + 9 * j], Gadget::SplitLe { integer, bits: b }
                if *integer == target(s + j) && *b == (bits..bits + 8).map(bit).collect::<Vec<BoolTarget>>()));
            for k in 0..8 {
                let before = if i == 0 {
                    chain.head_block_hash[8 * j + k].target
                } else {
                    digest(i - 1, 8 * j + k)
                };
                assert!(matches!(&h[2 + 9 * j + k], Gadget::Connect { x, y }
                    if *x == before && *y == target(bits + 7 - k)));
            }
        }
        let message = s + 289;
        assert!(matches!(&h[289], Gadget::Blake2b { hash }
            if hash.message == (message..message + 8 * size).map(bit).collect::<Vec<BoolTarget>>()
                && hash.message_len == target(message + 8 * size)
                && hash.digest.len() == 256 && hash.digest[0].target == digest(i, 0)));
        for j in 0..size {
            let bits = s + 546 + 8 * size + 8 * j;
            assert!(matches!(&h[290 + 9 * j], Gadget::SplitLe { integer, bits: b }
                if *integer == chain.encoded_headers[i][j] && b[0] == bit(bits) && b.len() == 8));
            for k in 0..8 {
                assert!(matches!(&h[291 + 9 * j + k], Gadget::Connect { x, y }
                    if *x == target(message + 8 * j + k) && *y == target(bits + 7 - k)));
            }
        }
        let tail = &h[290 + 9 * size..];
        let one = target(s + 546 + 16 * size);
        let expected = target(s + 547 + 16 * size);
        let before = if i == 0 { chain.head_block_num } else { target(base + 32) };
        assert!(matches!(&tail[0], Gadget::Connect { x, y }
            if *x == target(message + 8 * size) && *y == chain.encoded_header_sizes[i]));
        assert!(matches!(&tail[1], Gadget::One { one: o } if *o == one));
        assert!(matches!(&tail[2], Gadget::Add { x, y, sum }
            if *x == before && *y == one && *sum == expected));
        assert!(matches!(&tail[3], Gadget::Connect { x, y }
            if *x == expected && *y == target(s + 32)));
    }

    // The bytes of the last digest, and the justification.
    let end = &g[2 * (size + 1) + 2 * gadgets_per_header..];
    let last_digest = base + per_header + 290 + 8 * size;
    let sums = base + 2 * per_header;
    for j in 0..32 {
        let bits: Vec<BoolTarget> = (0..8).rev().map(|k| bit(last_digest + 8 * j + k)).collect();
        assert!(matches!(&end[j], Gadget::LeSum { bits: b, sum }
            if *b == bits && *sum == target(sums + j)));
    }
    assert!(matches!(&end[32], Gadget::VerifyJustification { signed_precommits, block, .. }
        if *signed_precommits == vec![1, 2, 3] && block.num == target(base + per_header + 32)
            && block.hash == (sums..sums + 32).map(target).collect::<Vec<Target>>()));
    assert_eq!(end.len(), 33);
}

#[test]
fn can_step_tells_the_shape_of_a_subchain() {
    let mut b: CircuitBuilder<u32> = CircuitBuilder::new(config(3, 2));
    let good = subchain(&mut b, 2, 3);
    assert!(b.can_step(&good));

    let empty = subchain(&mut b, 0, 3);
    assert!(!b.can_step(&empty));
    let too_many = subchain(&mut b, 3, 3);
    assert!(!b.can_step(&too_many));
    let too_short = subchain(&mut b, 1, 2);
    assert!(!b.can_step(&too_short));
    let mut one_too_long = good.clone();
    one_too_long.encoded_headers[1].push(target(0));
    assert!(!b.can_step(&one_too_long));
    let mut size_missing = good.clone();
    size_missing.encoded_header_sizes.pop();
    assert!(!b.can_step(&size_missing));
    let mut bit_missing = good.clone();
    bit_missing.head_block_hash.pop();
    assert!(!b.can_step(&bit_missing));
    let mut bit_to_spare = good.clone();
    bit_to_spare.head_block_hash.push(bit(0));
    assert!(b.can_step(&bit_to_spare));
}
