use subchain_step::builder::{CircuitBuilder, StepConfig};
use subchain_step::gadget::Gadget;
use subchain_step::step::{CircuitBuilderStep, VerifySubchainTarget};
use subchain_step::target::{AuthoritySetSignersTarget, BoolTarget, Target, HASH_SIZE};

/// The order of the Goldilocks field.
const ORDER: u64 = 0xffff_ffff_0000_0001;

const CONFIG: StepConfig = StepConfig { max_header_size: 64, max_num_headers_per_step: 20 };

/// A precommit names the block that it votes for.
#[derive(Clone, Debug, PartialEq)]
struct Vote {
    num: u64,
    hash: Vec<u8>,
}

/// The inputs of one step.
#[derive(Clone)]
struct Inputs {
    head_hash: Vec<u8>,
    head_num: u64,
    headers: Vec<Vec<u64>>,
    sizes: Vec<u64>,
    votes: Vec<Vote>,
}

/// A stand-in for the block hash: every output byte depends on every hashed byte.
fn digest(message: &[u8]) -> Vec<u8> {
    let mut out = Vec::new();
    for lane in 0..HASH_SIZE as u64 {
        let mut h: u64 = 0xcbf2_9ce4_8422_2325 ^ lane.wrapping_mul(0x9e37_79b9_7f4a_7c15);
        for b in message {
            h = (h ^ *b as u64).wrapping_mul(0x0000_0100_0000_01b3);
        }
        out.push((h >> 32) as u8);
    }
    out
}

/// A header: the parent hash, the block number in compact encoding, and a body.
fn encode_header(parent_hash: &[u8], number: u32, body: &[u8]) -> Vec<u8> {
    let mut bytes = parent_hash.to_vec();
    bytes.extend_from_slice(&((number << 2) | 2).to_le_bytes());
    bytes.extend_from_slice(body);
    bytes
}

/// `n` headers that follow each other from the block with number `head_num`, and the votes for
/// the last of them.
fn make_inputs(n: usize, head_num: u32) -> Inputs {
    let head_hash = digest(b"head");
    let mut headers = Vec::new();
    let mut sizes = Vec::new();
    let mut last_hash = head_hash.clone();
    let mut last_num = head_num;
    for i in 0..n {
        last_num += 1;
        let header = encode_header(&last_hash, last_num, &[i as u8; 7]);
        last_hash = digest(&header);
        sizes.push(header.len() as u64);
        let mut padded: Vec<u64> = header.iter().map(|b| *b as u64).collect();
        padded.resize(CONFIG.max_header_size, 0);
        headers.push(padded);
    }
    let votes = vec![Vote { num: last_num as u64, hash: last_hash }; 3];
    Inputs { head_hash, head_num: head_num as u64, headers, sizes, votes }
}

fn input(builder: &mut CircuitBuilder<Vote>, values: &mut Vec<Option<u64>>, value: u64) -> Target {
    let target = builder.add_virtual_target();
    assert_eq!(target.index, values.len());
    values.push(Some(value));
    target
}

fn no_signers(set_id: Target) -> AuthoritySetSignersTarget {
    AuthoritySetSignersTarget { pub_keys: Vec::new(), commitment: Vec::new(), set_id }
}

/// Gives the inputs of a step their targets.
fn fill(
    builder: &mut CircuitBuilder<Vote>,
    values: &mut Vec<Option<u64>>,
    inputs: &Inputs,
) -> VerifySubchainTarget {
    let mut head_block_hash = Vec::new();
    for byte in &inputs.head_hash {
        for k in 0..8 {
            let bit = builder.add_virtual_bool_target();
            assert_eq!(bit.target.index, values.len());
            values.push(Some((*byte >> (7 - k)) as u64 & 1));
            head_block_hash.push(bit);
        }
    }
    let head_block_num = input(builder, values, inputs.head_num);
    let mut encoded_headers = Vec::new();
    for header in &inputs.headers {
        let mut targets = Vec::new();
        for byte in header {
            targets.push(input(builder, values, *byte));
        }
        encoded_headers.push(targets);
    }
    let mut encoded_header_sizes = Vec::new();
    for size in &inputs.sizes {
        encoded_header_sizes.push(input(builder, values, *size));
    }
    VerifySubchainTarget { head_block_hash, head_block_num, encoded_headers, encoded_header_sizes }
}

fn known(values: &[Option<u64>], targets: &[Target]) -> Option<Vec<u64>> {
    targets.iter().map(|t| values[t.index]).collect()
}

fn known_bits(values: &[Option<u64>], bits: &[BoolTarget]) -> Option<Vec<u64>> {
    bits.iter().map(|b| values[b.target.index]).collect()
}

fn add_mod(x: u64, y: u64) -> u64 {
    ((x as u128 + y as u128) % ORDER as u128) as u64
}

fn le_sum(bits: &[u64]) -> u64 {
    let mut sum: u128 = 0;
    for b in bits.iter().rev() {
        sum = (2 * sum + *b as u128) % ORDER as u128;
    }
    sum as u64
}

fn decode(bytes: &[u64]) -> (Vec<u64>, u64) {
    let mut compact: u64 = 0;
    for i in (0..4).rev() {
        compact = compact * 256 + bytes[HASH_SIZE + i] % 256;
    }
    (bytes[..HASH_SIZE].to_vec(), compact >> 2)
}

fn hash_bits(message: &[u64], len: u64) -> Vec<u64> {
    let bytes: Vec<u8> = message
        .chunks(8)
        .take(len as usize)
        .map(|bits| bits.iter().fold(0u64, |byte, b| 2 * byte + *b) as u8)
        .collect();
    let mut out = Vec::new();
    for byte in digest(&bytes) {
        for k in 0..8 {
            out.push((byte >> (7 - k)) as u64 & 1);
        }
    }
    out
}

/// What the gadget makes of the values known so far: targets and the values that they must have.
fn outputs(gadget: &Gadget<Vote>, values: &[Option<u64>]) -> Vec<(Target, u64)> {
    match gadget {
        Gadget::SplitLe { integer, bits } => match values[integer.index] {
            Some(v) => bits.iter().enumerate().map(|(k, b)| (b.target, (v >> k) & 1)).collect(),
            None => Vec::new(),
        },
        Gadget::Connect { x, y } => match (values[x.index], values[y.index]) {
            (Some(v), None) => vec![(*y, v)],
            (None, Some(v)) => vec![(*x, v)],
            _ => Vec::new(),
        },
        Gadget::One { one } => vec![(*one, 1)],
        Gadget::Add { x, y, sum } => match (values[x.index], values[y.index]) {
            (Some(a), Some(b)) => vec![(*sum, add_mod(a, b))],
            _ => Vec::new(),
        },
        Gadget::LeSum { bits, sum } => match known_bits(values, bits) {
            Some(b) => vec![(*sum, le_sum(&b))],
            None => Vec::new(),
        },
        Gadget::DecodeHeader { encoded, decoded } => match known(values, &encoded.header_bytes) {
            Some(bytes) => {
                let (parent_hash, number) = decode(&bytes);
                let mut out: Vec<(Target, u64)> =
                    decoded.parent_hash.iter().copied().zip(parent_hash).collect();
                out.push((decoded.block_number, number));
                out
            }
            None => Vec::new(),
        },
        Gadget::Blake2b { hash } => {
            match (known_bits(values, &hash.message), values[hash.message_len.index]) {
                (Some(message), Some(len)) => hash
                    .digest
                    .iter()
                    .map(|b| b.target)
                    .zip(hash_bits(&message, len))
                    .collect(),
                _ => Vec::new(),
            }
        }
        _ => Vec::new(),
    }
}

/// Whether the gadget holds of the values.
fn holds(gadget: &Gadget<Vote>, values: &[Option<u64>]) -> bool {
    let at = |t: &Target| values[t.index].unwrap();
    match gadget {
        Gadget::RangeCheck { x, n_log } => *n_log == 0 || at(x) < 1u64 << *n_log,
        Gadget::SplitLe { integer, bits } => {
            let b = known_bits(values, bits).unwrap();
            b.iter().all(|v| *v <= 1) && le_sum(&b) == at(integer)
        }
        Gadget::Connect { x, y } => at(x) == at(y),
        Gadget::VerifyJustification { signed_precommits, block, .. } => {
            let hash = known(values, &block.hash).unwrap();
            !signed_precommits.is_empty()
                && signed_precommits.iter().all(|v| {
                    v.num == at(&block.num)
                        && v.hash.iter().map(|b| *b as u64).collect::<Vec<u64>>() == hash
                })
        }
        _ => outputs(gadget, values).iter().all(|(t, v)| at(t) == *v),
    }
}

/// Fills in the values that follow from the inputs.
fn generate(builder: &CircuitBuilder<Vote>, values: &mut Vec<Option<u64>>) {
    values.resize(builder.num_targets(), None);
    let mut more = true;
    while more {
        more = false;
        for gadget in builder.gadgets() {
            for (target, value) in outputs(gadget, values) {
                if values[target.index].is_none() {
                    values[target.index] = Some(value);
                    more = true;
                }
            }
        }
    }
}

/// Whether every gadget recorded for the step holds.
fn accepts(inputs: &Inputs) -> bool {
    let mut builder: CircuitBuilder<Vote> = CircuitBuilder::new(CONFIG);
    let mut values = Vec::new();
    let subchain = fill(&mut builder, &mut values, inputs);
    let set_id = input(&mut builder, &mut values, 0);
    assert!(builder.can_step(&subchain));
    builder.step(subchain, inputs.votes.clone(), no_signers(set_id));
    generate(&builder, &mut values);
    builder.gadgets().iter().all(|g| holds(g, &values))
}

#[test]
fn test_verify_headers_one() {
    assert!(accepts(&make_inputs(1, 530526)));
}

#[test]
fn test_verify_headers_two() {
    assert!(accepts(&make_inputs(2, 530525)));
}

#[test]
fn test_verify_headers_five() {
    assert!(accepts(&make_inputs(5, 530522)));
}

#[test]
fn test_verify_headers_ten() {
    assert!(accepts(&make_inputs(10, 530517)));
}

#[test]
fn test_verify_headers_twenty() {
    assert!(accepts(&make_inputs(20, 530507)));
}

#[test]
fn a_wrong_head_hash_is_refused() {
    let mut inputs = make_inputs(3, 530524);
    inputs.head_hash[31] ^= 1;
    assert!(!accepts(&inputs));
}

#[test]
fn a_wrong_head_number_is_refused() {
    let mut inputs = make_inputs(3, 530524);
    inputs.head_num += 1;
    assert!(!accepts(&inputs));
}

#[test]
fn a_changed_header_breaks_the_link_to_the_next() {
    let mut inputs = make_inputs(3, 530524);
    let body = HASH_SIZE + 5;
    inputs.headers[1][body] ^= 1;
    assert!(!accepts(&inputs));
}

#[test]
fn a_changed_last_header_is_not_justified() {
    let mut inputs = make_inputs(3, 530524);
    let body = HASH_SIZE + 5;
    inputs.headers[2][body] ^= 1;
    assert!(!accepts(&inputs));
}

#[test]
fn bytes_after_the_size_are_not_hashed() {
    let mut inputs = make_inputs(3, 530524);
    inputs.headers[2][CONFIG.max_header_size - 1] = 9;
    assert!(accepts(&inputs));
}

#[test]
fn a_skipped_header_is_refused() {
    let mut inputs = make_inputs(3, 530524);
    inputs.headers.remove(1);
    inputs.sizes.remove(1);
    assert!(!accepts(&inputs));
}

#[test]
fn headers_out_of_order_are_refused() {
    let mut inputs = make_inputs(3, 530524);
    inputs.headers.swap(0, 1);
    assert!(!accepts(&inputs));
}

#[test]
fn a_number_out_of_sequence_is_refused() {
    let mut inputs = make_inputs(1, 530526);
    let header = encode_header(&inputs.head_hash, 530528, &[]);
    inputs.sizes[0] = header.len() as u64;
    inputs.headers[0] = header.iter().map(|b| *b as u64).collect();
    inputs.headers[0].resize(CONFIG.max_header_size, 0);
    inputs.votes = vec![Vote { num: 530528, hash: digest(&header) }];
    assert!(!accepts(&inputs));
    inputs.head_num = 530527;
    assert!(accepts(&inputs));
}

#[test]
fn a_value_that_is_no_byte_is_refused() {
    let mut inputs = make_inputs(2, 530525);
    inputs.headers[1][CONFIG.max_header_size - 1] = 256;
    assert!(!accepts(&inputs));
    inputs.headers[1][CONFIG.max_header_size - 1] = 255;
    assert!(accepts(&inputs));
}

#[test]
fn a_size_beyond_the_padding_is_refused() {
    let mut inputs = make_inputs(1, 530526);
    inputs.sizes[0] = 64;
    let mut message: Vec<u8> = inputs.headers[0].iter().map(|b| *b as u8).collect();
    inputs.votes = vec![Vote { num: 530527, hash: digest(&message) }];
    assert!(!accepts(&inputs));
    inputs.sizes[0] = 63;
    message.truncate(63);
    inputs.votes = vec![Vote { num: 530527, hash: digest(&message) }];
    assert!(accepts(&inputs));
}

#[test]
fn votes_for_another_block_are_refused() {
    let inputs = make_inputs(2, 530525);
    let mut other_number = inputs.clone();
    other_number.votes[1].num += 1;
    assert!(!accepts(&other_number));
    let mut other_hash = inputs.clone();
    other_hash.votes[2].hash[0] ^= 128;
    assert!(!accepts(&other_hash));
    let mut nobody = inputs.clone();
    nobody.votes.clear();
    assert!(!accepts(&nobody));
}

#[test]
fn two_steps_verify_what_one_step_does() {
    let all = make_inputs(5, 530522);
    let mut first = all.clone();
    first.headers.truncate(2);
    first.sizes.truncate(2);
    let middle: Vec<u8> = first.headers[1][..first.sizes[1] as usize].iter().map(|b| *b as u8).collect();
    first.votes = vec![Vote { num: 530524, hash: digest(&middle) }];
    let mut second = all.clone();
    second.head_hash = digest(&middle);
    second.head_num = 530524;
    second.headers.drain(..2);
    second.sizes.drain(..2);
    assert!(accepts(&first));
    assert!(accepts(&second));
    assert!(accepts(&all));
}

/// The last three of five headers, from the second header as their head block.
fn rest_of_five() -> Inputs {
    let mut inputs = make_inputs(5, 530522);
    let size = inputs.sizes[1] as usize;
    let before: Vec<u8> = inputs.headers[1][..size].iter().map(|b| *b as u8).collect();
    inputs.head_hash = digest(&before);
    inputs.head_num = 530524;
    inputs.headers.drain(..2);
    inputs.sizes.drain(..2);
    inputs
}

#[test]
fn the_rest_of_a_step_has_one_head() {
    assert!(accepts(&rest_of_five()));
    for byte in 0..HASH_SIZE {
        let mut other_hash = rest_of_five();
        other_hash.head_hash[byte] ^= 1;
        assert!(!accepts(&other_hash));
    }
    for head_num in [0, 530522, 530523, 530525, ORDER - 1] {
        let mut other_num = rest_of_five();
        other_num.head_num = head_num;
        assert!(!accepts(&other_num));
    }
}

#[test]
fn the_rest_of_a_step_goes_on_from_its_own_digest() {
    let inputs = make_inputs(5, 530522);
    let mut builder: CircuitBuilder<Vote> = CircuitBuilder::new(CONFIG);
    let mut values = Vec::new();
    let subchain = fill(&mut builder, &mut values, &inputs);
    let set_id = input(&mut builder, &mut values, 0);
    builder.step(subchain.clone(), inputs.votes.clone(), no_signers(set_id));

    // The second header: its digest and its block number.
    let mut digests = Vec::new();
    let mut numbers = Vec::new();
    for gadget in builder.gadgets() {
        match gadget {
            Gadget::Blake2b { hash } => digests.push(hash.digest.clone()),
            Gadget::DecodeHeader { decoded, .. } => numbers.push(decoded.block_number),
            _ => {}
        }
    }
    let rest = VerifySubchainTarget {
        head_block_hash: digests[1].clone(),
        head_block_num: numbers[1],
        encoded_headers: subchain.encoded_headers[2..].to_vec(),
        encoded_header_sizes: subchain.encoded_header_sizes[2..].to_vec(),
    };
    assert!(builder.can_step(&rest));
    builder.step(rest, inputs.votes.clone(), no_signers(set_id));
    generate(&builder, &mut values);
    assert!(builder.gadgets().iter().all(|g| holds(g, &values)));
}

#[test]
fn the_block_number_wraps_around_with_the_field() {
    let mut inputs = make_inputs(1, 0);
    inputs.head_num = ORDER - 1;
    let header = encode_header(&inputs.head_hash, 0, &[]);
    inputs.sizes[0] = header.len() as u64;
    inputs.headers[0] = header.iter().map(|b| *b as u64).collect();
    inputs.headers[0].resize(CONFIG.max_header_size, 0);
    inputs.votes = vec![Vote { num: 0, hash: digest(&header) }];
    assert!(accepts(&inputs));
}

#[test]
fn a_step_goes_on_from_the_gadgets_before_it() {
    let inputs = make_inputs(1, 530526);
    let mut builder: CircuitBuilder<Vote> = CircuitBuilder::new(CONFIG);
    let mut values = Vec::new();
    let subchain = fill(&mut builder, &mut values, &inputs);
    let set_id = input(&mut builder, &mut values, 0);
    builder.range_check(set_id, 32);
    builder.step(subchain.clone(), inputs.votes.clone(), no_signers(set_id));
    let after_one = builder.gadgets().len();
    builder.step(subchain, inputs.votes.clone(), no_signers(set_id));
    assert!(matches!(&builder.gadgets()[0], Gadget::RangeCheck { x, n_log: 32 } if *x == set_id));
    assert_eq!(builder.gadgets().len(), 2 * after_one - 1);
    generate(&builder, &mut values);
    assert!(builder.gadgets().iter().all(|g| holds(g, &values)));
}
