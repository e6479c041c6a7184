use segstore::vector::{
    get, initialize_vector, pop, pop_slice, push, remove, remove_slice, slice, GetParams,
    InitializeParams, Instruction, PopParams, VectorError, VectorMeta,
};

fn elem(v: u16) -> Vec<u8> {
    v.to_le_bytes().to_vec()
}

fn payload(vs: &[u16]) -> Vec<u8> {
    let mut out = Vec::new();
    for v in vs {
        out.extend_from_slice(&v.to_le_bytes());
    }
    out
}

fn contents_of(meta: &VectorMeta, segs: &Vec<Vec<u8>>) -> Vec<Vec<u8>> {
    slice(meta, segs, 0, meta.length).unwrap()
}

/// Appends land at the tail in order, across segment boundaries.
#[test]
fn push_appends_across_segments() {
    let (mut meta, mut segs) = initialize_vector(7, 2, 6).unwrap(); // 3 elements per segment
    assert_eq!(segs.len(), 3);
    assert_eq!(segs[2].len(), 2);
    push(&mut meta, &mut segs, &payload(&[10, 11])).unwrap();
    push(&mut meta, &mut segs, &payload(&[12, 13, 14])).unwrap();
    assert_eq!(meta.length, 5);
    assert_eq!(
        contents_of(&meta, &segs),
        vec![elem(10), elem(11), elem(12), elem(13), elem(14)]
    );
}

/// pop(n) returns the last n elements in storage order and shortens the
/// vector.
#[test]
fn pop_returns_tail_in_storage_order() {
    let (mut meta, mut segs) = initialize_vector(6, 2, 4).unwrap();
    push(&mut meta, &mut segs, &payload(&[1, 2, 3, 4, 5])).unwrap();
    let popped = pop_slice(&mut meta, &mut segs, 3).unwrap();
    assert_eq!(popped, vec![elem(3), elem(4), elem(5)]);
    assert_eq!(meta.length, 2);
    let last = pop(&mut meta, &mut segs).unwrap();
    assert_eq!(last, elem(2));
    assert_eq!(contents_of(&meta, &segs), vec![elem(1)]);
}

#[test]
fn get_and_slice_bounds() {
    let (mut meta, mut segs) = initialize_vector(5, 2, 4).unwrap();
    push(&mut meta, &mut segs, &payload(&[7, 8, 9])).unwrap();
    assert_eq!(get(&meta, &segs, 0).unwrap(), elem(7));
    assert_eq!(get(&meta, &segs, 2).unwrap(), elem(9));
    assert_eq!(get(&meta, &segs, 3), Err(VectorError::IndexOutofBounds));
    assert_eq!(slice(&meta, &segs, 1, 3).unwrap(), vec![elem(8), elem(9)]);
    assert_eq!(slice(&meta, &segs, 3, 3).unwrap(), Vec::<Vec<u8>>::new());
    assert_eq!(slice(&meta, &segs, 2, 1), Err(VectorError::IndexOutofBounds));
    assert_eq!(slice(&meta, &segs, 0, 4), Err(VectorError::IndexOutofBounds));
}

/// Removing a middle range shifts the tail forward to close the gap, with
/// the two cursors crossing segment boundaries.
#[test]
fn remove_range_compacts() {
    let (mut meta, mut segs) = initialize_vector(8, 2, 4).unwrap();
    push(&mut meta, &mut segs, &payload(&[1, 2, 3, 4, 5, 6, 7])).unwrap();
    let removed = remove_slice(&mut meta, &mut segs, 1, 4).unwrap();
    assert_eq!(removed, vec![elem(2), elem(3), elem(4)]);
    assert_eq!(meta.length, 4);
    assert_eq!(
        contents_of(&meta, &segs),
        vec![elem(1), elem(5), elem(6), elem(7)]
    );
    let got = remove(&mut meta, &mut segs, 0).unwrap();
    assert_eq!(got, elem(1));
    assert_eq!(contents_of(&meta, &segs), vec![elem(5), elem(6), elem(7)]);
}

#[test]
fn vector_errors_are_reported_without_effect() {
    let (mut meta, mut segs) = initialize_vector(2, 2, 4).unwrap();
    push(&mut meta, &mut segs, &payload(&[1])).unwrap();
    let meta_before = meta.clone();
    let segs_before = segs.clone();

    assert_eq!(
        push(&mut meta, &mut segs, &payload(&[2, 3])),
        Err(VectorError::InsufficientSpace)
    );
    let odd: Vec<u8> = vec![9];
    assert_eq!(
        push(&mut meta, &mut segs, &odd),
        Err(VectorError::MalformedInput)
    );
    assert_eq!(
        pop_slice(&mut meta, &mut segs, 2),
        Err(VectorError::PopFromEmpty)
    );
    assert_eq!(
        remove_slice(&mut meta, &mut segs, 0, 2),
        Err(VectorError::IndexOutofBounds)
    );
    assert_eq!(meta, meta_before);
    assert_eq!(segs, segs_before);
}

#[test]
fn vector_initialize_rejects_bad_geometry() {
    assert_eq!(
        initialize_vector(0, 2, 4).err().unwrap(),
        VectorError::MalformedInput
    );
    assert_eq!(
        initialize_vector(4, 0, 4).err().unwrap(),
        VectorError::MalformedInput
    );
    assert_eq!(
        initialize_vector(4, 8, 4).err().unwrap(),
        VectorError::MalformedInput
    );
    assert_eq!(
        initialize_vector(u64::MAX, 3, 4).err().unwrap(),
        VectorError::Overflow
    );
}

/// The same operation sequence gives identical results on a single-segment
/// vector and on one with one element per segment.
#[test]
fn vector_segment_crossing_equivalence() {
    let (mut m1, mut s1) = initialize_vector(6, 2, 2).unwrap();
    let (mut m2, mut s2) = initialize_vector(6, 2, 512).unwrap();
    assert_eq!(s1.len(), 6);
    assert_eq!(s2.len(), 1);

    push(&mut m1, &mut s1, &payload(&[1, 2, 3, 4, 5])).unwrap();
    push(&mut m2, &mut s2, &payload(&[1, 2, 3, 4, 5])).unwrap();
    let a = remove_slice(&mut m1, &mut s1, 1, 3).unwrap();
    let b = remove_slice(&mut m2, &mut s2, 1, 3).unwrap();
    assert_eq!(a, b);
    let a = pop_slice(&mut m1, &mut s1, 2).unwrap();
    let b = pop_slice(&mut m2, &mut s2, 2).unwrap();
    assert_eq!(a, b);
    assert_eq!(contents_of(&m1, &s1), contents_of(&m2, &s2));
}

#[test]
fn vector_unpack_tags() {
    assert!(matches!(Instruction::unpack(&0), Ok(Instruction::Initialize)));
    assert!(matches!(Instruction::unpack(&1), Ok(Instruction::Push)));
    assert!(matches!(Instruction::unpack(&2), Ok(Instruction::Pop)));
    assert!(matches!(Instruction::unpack(&3), Ok(Instruction::Get)));
    assert!(matches!(Instruction::unpack(&4), Ok(Instruction::Remove)));
    assert!(matches!(Instruction::unpack(&5), Ok(Instruction::Delete)));
    assert!(matches!(
        Instruction::unpack(&6),
        Err(VectorError::MalformedInput)
    ));
}

/// The stored metadata layout is five little-endian 64-bit words, 40 bytes.
#[test]
fn vector_meta_byte_layout() {
    let (mut meta, mut segs) = initialize_vector(7, 2, 6).unwrap();
    push(&mut meta, &mut segs, &payload(&[1, 2])).unwrap();

    let bytes = meta.to_bytes();
    assert_eq!(bytes.len(), 40);
    let mut expected = Vec::new();
    for v in [7u64, 2, 2, 3, 6] {
        expected.extend_from_slice(&v.to_le_bytes());
    }
    assert_eq!(bytes, expected);

    let decoded = VectorMeta::from_bytes(&bytes).unwrap();
    assert_eq!(decoded, meta);
    let long: Vec<u8> = vec![0; 41];
    assert_eq!(
        VectorMeta::from_bytes(&long),
        Err(VectorError::MalformedInput)
    );
}

/// Operation parameter payloads are little-endian 64-bit words.
#[test]
fn vector_params_byte_layout() {
    let mut bytes = Vec::new();
    bytes.extend_from_slice(&6u64.to_le_bytes());
    bytes.extend_from_slice(&2u64.to_le_bytes());
    let p = InitializeParams::from_bytes(&bytes).unwrap();
    assert_eq!(p, InitializeParams { max_length: 6, element_size: 2 });

    let pop = PopParams::from_bytes(&1u64.to_le_bytes().to_vec()).unwrap();
    assert_eq!(pop, PopParams { num_elements: 1 });

    let mut bytes = Vec::new();
    bytes.extend_from_slice(&0u64.to_le_bytes());
    bytes.extend_from_slice(&2u64.to_le_bytes());
    let g = GetParams::from_bytes(&bytes).unwrap();
    assert_eq!(g, GetParams { start: 0, end: 2 });

    let long: Vec<u8> = vec![0; 17];
    assert_eq!(GetParams::from_bytes(&long), Err(VectorError::MalformedInput));
}
