use carsync::delta::{
    build_destination_signatures, transfer_with_delta, BlockAction, DeltaPlan, DeltaTransfer,
    DestinationSignatures, DELTA_CHUNK_SIZE,
};
use carsync::digest::sha256_chunk;

fn patterned(len: usize, seed: u32) -> Vec<u8> {
    let mut x = seed;
    (0..len)
        .map(|_| {
            x = x.wrapping_mul(1664525).wrapping_add(1013904223);
            (x >> 24) as u8
        })
        .collect()
}

fn apply(plan: &DeltaPlan, source: &[u8], destination: &[u8]) -> Vec<u8> {
    let mut out = Vec::new();
    for (action, chunk) in plan.actions.iter().zip(source.chunks(DELTA_CHUNK_SIZE)) {
        match action {
            BlockAction::Reuse { offset, length } => {
                let start = *offset as usize;
                out.extend_from_slice(&destination[start..start + *length]);
            }
            BlockAction::Send => out.extend_from_slice(chunk),
        }
    }
    out
}

#[test]
fn delta_chunk_size_is_64_kib() {
    assert_eq!(DELTA_CHUNK_SIZE, 65536);
}

#[test]
fn signatures_cover_the_destination_in_blocks() {
    let destination = patterned(3 * DELTA_CHUNK_SIZE + 10, 1);
    let sigs = build_destination_signatures(&destination);
    assert_eq!(sigs.scanned(), destination.len() as u64);
    let last = &destination[3 * DELTA_CHUNK_SIZE..];
    let found = sigs.find_block(&sha256_chunk(last), last.len()).unwrap();
    assert_eq!(found.offset, 3 * DELTA_CHUNK_SIZE as u64);
    assert_eq!(found.length, 10);
    let second = &destination[DELTA_CHUNK_SIZE..2 * DELTA_CHUNK_SIZE];
    let found = sigs.find_block(&sha256_chunk(second), DELTA_CHUNK_SIZE).unwrap();
    assert_eq!(found.offset, DELTA_CHUNK_SIZE as u64);
}

#[test]
fn signatures_of_empty_destination_find_nothing() {
    let sigs = build_destination_signatures(&[]);
    assert_eq!(sigs.scanned(), 0);
    assert!(sigs.find_block(&sha256_chunk(b"x"), 1).is_none());
}

#[test]
fn find_block_wants_the_length_too() {
    let mut sigs = DestinationSignatures::new();
    sigs.record_block(b"abc");
    let hash = sha256_chunk(b"abc");
    assert!(sigs.find_block(&hash, 3).is_some());
    assert!(sigs.find_block(&hash, 4).is_none());
}

#[test]
fn find_block_returns_the_first_recorded_match() {
    let mut sigs = DestinationSignatures::new();
    sigs.record_block(b"zz");
    sigs.record_block(b"abc");
    sigs.record_block(b"abc");
    let found = sigs.find_block(&sha256_chunk(b"abc"), 3).unwrap();
    assert_eq!(found.offset, 2);
    assert_eq!(found.length, 3);
    assert_eq!(found.hash, sha256_chunk(b"abc"));
}

#[test]
fn unchanged_file_is_reused_entirely() {
    let data = patterned(5 * DELTA_CHUNK_SIZE + 123, 7);
    let plan = transfer_with_delta(&data, &data);
    assert_eq!(plan.bytes_on_wire, 0);
    assert_eq!(plan.actions.len(), 6);
    for (i, action) in plan.actions.iter().enumerate() {
        match action {
            BlockAction::Reuse { offset, .. } => assert_eq!(*offset, (i * DELTA_CHUNK_SIZE) as u64),
            BlockAction::Send => panic!("block {} was sent", i),
        }
    }
    assert_eq!(apply(&plan, &data, &data), data);
}

#[test]
fn changed_block_alone_is_sent() {
    let destination = patterned(4 * DELTA_CHUNK_SIZE, 3);
    let mut source = destination.clone();
    source[2 * DELTA_CHUNK_SIZE + 5] ^= 0xff;
    let plan = transfer_with_delta(&source, &destination);
    assert_eq!(plan.bytes_on_wire, DELTA_CHUNK_SIZE as u64);
    assert!(matches!(plan.actions[2], BlockAction::Send));
    assert!(matches!(plan.actions[0], BlockAction::Reuse { offset: 0, .. }));
    assert_eq!(apply(&plan, &source, &destination), source);
}

#[test]
fn moved_blocks_are_found_at_their_new_offsets() {
    let a = patterned(DELTA_CHUNK_SIZE, 11);
    let b = patterned(DELTA_CHUNK_SIZE, 12);
    let destination = [a.clone(), b.clone()].concat();
    let source = [b.clone(), a.clone()].concat();
    let plan = transfer_with_delta(&source, &destination);
    assert_eq!(plan.bytes_on_wire, 0);
    assert!(matches!(
        plan.actions[0],
        BlockAction::Reuse { offset, length } if offset == DELTA_CHUNK_SIZE as u64 && length == DELTA_CHUNK_SIZE
    ));
    assert!(matches!(plan.actions[1], BlockAction::Reuse { offset: 0, .. }));
    assert_eq!(apply(&plan, &source, &destination), source);
}

#[test]
fn new_file_content_is_sent_whole() {
    let destination = patterned(2 * DELTA_CHUNK_SIZE, 21);
    let source = patterned(DELTA_CHUNK_SIZE + 77, 22);
    let plan = transfer_with_delta(&source, &destination);
    assert_eq!(plan.bytes_on_wire, source.len() as u64);
    assert_eq!(plan.actions.len(), 2);
    assert!(plan.actions.iter().all(|a| matches!(a, BlockAction::Send)));
    assert_eq!(apply(&plan, &source, &destination), source);
}

#[test]
fn empty_source_plans_nothing() {
    let plan = transfer_with_delta(&[], b"old contents");
    assert!(plan.actions.is_empty());
    assert_eq!(plan.bytes_on_wire, 0);
}

#[test]
fn short_tail_needs_matching_length() {
    let destination = patterned(DELTA_CHUNK_SIZE + 100, 31);
    let source = destination[..DELTA_CHUNK_SIZE + 50].to_vec();
    let plan = transfer_with_delta(&source, &destination);
    assert!(matches!(plan.actions[0], BlockAction::Reuse { offset: 0, .. }));
    assert!(matches!(plan.actions[1], BlockAction::Send));
    assert_eq!(plan.bytes_on_wire, 50);
    assert_eq!(apply(&plan, &source, &destination), source);
}

#[test]
fn block_by_block_plan_reuses_and_sends() {
    let mut sigs = DestinationSignatures::new();
    sigs.record_block(b"hello");
    sigs.record_block(b"world");
    let mut transfer = DeltaTransfer::new(sigs);
    assert!(matches!(
        transfer.plan_block(b"world"),
        BlockAction::Reuse { offset: 5, length: 5 }
    ));
    assert!(matches!(transfer.plan_block(b"kitty"), BlockAction::Send));
    assert!(matches!(
        transfer.plan_block(b"hello"),
        BlockAction::Reuse { offset: 0, length: 5 }
    ));
    assert_eq!(transfer.bytes_on_wire(), 5);
}
