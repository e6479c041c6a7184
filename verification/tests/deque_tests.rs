use segstore::deque::{
    get, initialize_deque, pop_back, pop_front, pop_slice_back, pop_slice_front, push_back,
    push_front, remove, remove_slice, slice, DequeError, DequeMeta, GetParams, InitializeParams,
    Instruction, PopParams,
};

fn elem(v: u32) -> Vec<u8> {
    v.to_le_bytes().to_vec()
}

fn payload(vs: &[u32]) -> Vec<u8> {
    let mut out = Vec::new();
    for v in vs {
        out.extend_from_slice(&v.to_le_bytes());
    }
    out
}

fn contents_of(meta: &DequeMeta, segs: &Vec<Vec<u8>>) -> Vec<Vec<u8>> {
    slice(meta, segs, 0, meta.length).unwrap()
}

/// Capacity 5 elements of 4 bytes each, 2 elements per segment (3 segments).
#[test]
fn scenario_push_pop_push_front() {
    let (mut meta, mut segs) = initialize_deque(5, 4, 8).unwrap();
    assert_eq!(segs.len(), 3);
    assert_eq!(segs[0].len(), 8);
    assert_eq!(segs[1].len(), 8);
    assert_eq!(segs[2].len(), 4);

    push_back(&mut meta, &mut segs, &payload(&[1, 2, 3])).unwrap();
    assert_eq!(meta.length, 3);
    assert_eq!(meta.start, 0);

    let popped = pop_slice_front(&mut meta, &mut segs, 1).unwrap();
    assert_eq!(popped, vec![elem(1)]);
    assert_eq!(meta.start, 1);
    assert_eq!(meta.length, 2);

    push_front(&mut meta, &mut segs, &payload(&[9])).unwrap();
    assert_eq!(meta.start, 0);
    assert_eq!(meta.length, 3);
    assert_eq!(contents_of(&meta, &segs), vec![elem(9), elem(2), elem(3)]);
}

/// remove_range(1, 3) on logical deque [9, 2, 3] returns [2, 3] and leaves
/// [9] with the start unchanged.
#[test]
fn scenario_remove_range() {
    let (mut meta, mut segs) = initialize_deque(5, 4, 8).unwrap();
    push_back(&mut meta, &mut segs, &payload(&[1, 2, 3])).unwrap();
    pop_slice_front(&mut meta, &mut segs, 1).unwrap();
    push_front(&mut meta, &mut segs, &payload(&[9])).unwrap();

    let removed = remove_slice(&mut meta, &mut segs, 1, 3).unwrap();
    assert_eq!(removed, vec![elem(2), elem(3)]);
    assert_eq!(meta.length, 1);
    assert_eq!(meta.start, 0);
    assert_eq!(contents_of(&meta, &segs), vec![elem(9)]);
}

/// Elements pushed at the back come out of the front in push order, across
/// segment boundaries and the ring wrap.
#[test]
fn fifo_order_with_ring_wrap() {
    let (mut meta, mut segs) = initialize_deque(7, 4, 8).unwrap();
    let mut expected: Vec<Vec<u8>> = Vec::new();
    let mut next: u32 = 0;
    // prime and drain repeatedly so the ring wraps several times
    for round in 0..5u32 {
        let batch: Vec<u32> = (0..3).map(|i| 100 * round + i).collect();
        push_back(&mut meta, &mut segs, &payload(&batch)).unwrap();
        for v in &batch {
            expected.push(elem(*v));
        }
        while meta.length > 2 {
            let got = pop_front(&mut meta, &mut segs).unwrap();
            assert_eq!(got, expected[next as usize]);
            next += 1;
        }
    }
    while meta.length > 0 {
        let got = pop_front(&mut meta, &mut segs).unwrap();
        assert_eq!(got, expected[next as usize]);
        next += 1;
    }
    assert_eq!(next as usize, expected.len());
}

/// push_front then an immediate pop_front returns exactly the pushed bytes
/// and restores the previous contents.
#[test]
fn push_front_pop_front_round_trip() {
    let (mut meta, mut segs) = initialize_deque(6, 2, 5).unwrap();
    push_back(&mut meta, &mut segs, &vec![1, 1, 2, 2]).unwrap();
    let before = contents_of(&meta, &segs);

    let pushed: Vec<u8> = vec![7, 7, 8, 8, 9, 9];
    push_front(&mut meta, &mut segs, &pushed).unwrap();
    let popped = pop_slice_front(&mut meta, &mut segs, 3).unwrap();
    let bytes: Vec<u8> = popped.into_iter().flatten().collect();
    assert_eq!(bytes, pushed);
    assert_eq!(contents_of(&meta, &segs), before);
}

/// pop_back returns the trailing elements, oldest of them first.
#[test]
fn pop_back_returns_tail() {
    let (mut meta, mut segs) = initialize_deque(5, 4, 8).unwrap();
    push_back(&mut meta, &mut segs, &payload(&[10, 20, 30, 40])).unwrap();
    let popped = pop_slice_back(&mut meta, &mut segs, 2).unwrap();
    assert_eq!(popped, vec![elem(30), elem(40)]);
    assert_eq!(meta.length, 2);
    let last = pop_back(&mut meta, &mut segs).unwrap();
    assert_eq!(last, elem(20));
}

/// A push that exceeds capacity fails with InsufficientSpace and changes
/// nothing: metadata and every segment byte stay bit-identical.
#[test]
fn deque_capacity_error_leaves_state_untouched() {
    let (mut meta, mut segs) = initialize_deque(3, 4, 8).unwrap();
    push_back(&mut meta, &mut segs, &payload(&[1, 2])).unwrap();
    let meta_before = meta.clone();
    let segs_before = segs.clone();

    let r = push_back(&mut meta, &mut segs, &payload(&[3, 4]));
    assert_eq!(r, Err(DequeError::InsufficientSpace));
    assert_eq!(meta, meta_before);
    assert_eq!(segs, segs_before);

    let r = push_front(&mut meta, &mut segs, &payload(&[3, 4]));
    assert_eq!(r, Err(DequeError::InsufficientSpace));
    assert_eq!(meta, meta_before);
    assert_eq!(segs, segs_before);
}

#[test]
fn pop_underflow_errors() {
    let (mut meta, mut segs) = initialize_deque(3, 4, 8).unwrap();
    assert_eq!(pop_front(&mut meta, &mut segs), Err(DequeError::PopFromEmpty));
    assert_eq!(pop_back(&mut meta, &mut segs), Err(DequeError::PopFromEmpty));
    push_back(&mut meta, &mut segs, &payload(&[1])).unwrap();
    assert_eq!(
        pop_slice_front(&mut meta, &mut segs, 2),
        Err(DequeError::PopFromEmpty)
    );
    assert_eq!(
        pop_slice_back(&mut meta, &mut segs, 2),
        Err(DequeError::PopFromEmpty)
    );
}

/// Reading through the logical last element (end == length) is allowed; an
/// inverted or overlong range is rejected.
#[test]
fn slice_bounds() {
    let (mut meta, mut segs) = initialize_deque(4, 4, 8).unwrap();
    push_back(&mut meta, &mut segs, &payload(&[5, 6, 7])).unwrap();
    assert_eq!(
        slice(&meta, &segs, 0, 3).unwrap(),
        vec![elem(5), elem(6), elem(7)]
    );
    assert_eq!(slice(&meta, &segs, 3, 3).unwrap(), Vec::<Vec<u8>>::new());
    assert_eq!(slice(&meta, &segs, 2, 1), Err(DequeError::IndexOutofBounds));
    assert_eq!(slice(&meta, &segs, 0, 4), Err(DequeError::IndexOutofBounds));
    assert_eq!(get(&meta, &segs, 2).unwrap(), elem(7));
    assert_eq!(get(&meta, &segs, 3), Err(DequeError::IndexOutofBounds));
}

#[test]
fn remove_single_element() {
    let (mut meta, mut segs) = initialize_deque(4, 4, 8).unwrap();
    push_back(&mut meta, &mut segs, &payload(&[5, 6, 7])).unwrap();
    let got = remove(&mut meta, &mut segs, 1).unwrap();
    assert_eq!(got, elem(6));
    assert_eq!(contents_of(&meta, &segs), vec![elem(5), elem(7)]);
    assert_eq!(
        remove(&mut meta, &mut segs, 2),
        Err(DequeError::IndexOutofBounds)
    );
}

/// remove_slice works when the removed range or the shifted elements cross
/// the ring's physical wrap point.
#[test]
fn remove_range_across_ring_wrap() {
    let (mut meta, mut segs) = initialize_deque(5, 4, 8).unwrap();
    push_back(&mut meta, &mut segs, &payload(&[1, 2, 3, 4, 5])).unwrap();
    pop_slice_front(&mut meta, &mut segs, 3).unwrap();
    // start is now 3; pushing wraps physically
    push_back(&mut meta, &mut segs, &payload(&[6, 7, 8])).unwrap();
    assert_eq!(
        contents_of(&meta, &segs),
        vec![elem(4), elem(5), elem(6), elem(7), elem(8)]
    );
    let removed = remove_slice(&mut meta, &mut segs, 1, 3).unwrap();
    assert_eq!(removed, vec![elem(5), elem(6)]);
    assert_eq!(contents_of(&meta, &segs), vec![elem(4), elem(7), elem(8)]);
    assert_eq!(meta.start, 3);
}

#[test]
fn malformed_payload_rejected() {
    let (mut meta, mut segs) = initialize_deque(4, 4, 8).unwrap();
    let odd: Vec<u8> = vec![1, 2, 3];
    assert_eq!(
        push_back(&mut meta, &mut segs, &odd),
        Err(DequeError::MalformedInput)
    );
    assert_eq!(
        push_front(&mut meta, &mut segs, &odd),
        Err(DequeError::MalformedInput)
    );
    assert_eq!(meta.length, 0);
}

#[test]
fn deque_initialize_rejects_bad_geometry() {
    assert_eq!(
        initialize_deque(0, 4, 8).err().unwrap(),
        DequeError::MalformedInput
    );
    assert_eq!(
        initialize_deque(4, 0, 8).err().unwrap(),
        DequeError::MalformedInput
    );
    assert_eq!(
        initialize_deque(4, 16, 8).err().unwrap(),
        DequeError::MalformedInput
    );
    assert_eq!(
        initialize_deque(u64::MAX, 2, 8).err().unwrap(),
        DequeError::Overflow
    );
}

/// The same operation sequence gives identical results on a single-segment
/// deque and on one whose segments are deliberately small.
#[test]
fn deque_segment_crossing_equivalence() {
    let (mut m1, mut s1) = initialize_deque(6, 4, 4).unwrap(); // 1 element per segment
    let (mut m2, mut s2) = initialize_deque(6, 4, 1024).unwrap(); // single segment
    assert_eq!(s1.len(), 6);
    assert_eq!(s2.len(), 1);

    push_back(&mut m1, &mut s1, &payload(&[1, 2, 3, 4])).unwrap();
    push_back(&mut m2, &mut s2, &payload(&[1, 2, 3, 4])).unwrap();
    let a = pop_slice_front(&mut m1, &mut s1, 2).unwrap();
    let b = pop_slice_front(&mut m2, &mut s2, 2).unwrap();
    assert_eq!(a, b);
    push_front(&mut m1, &mut s1, &payload(&[8, 9])).unwrap();
    push_front(&mut m2, &mut s2, &payload(&[8, 9])).unwrap();
    let a = remove_slice(&mut m1, &mut s1, 1, 3).unwrap();
    let b = remove_slice(&mut m2, &mut s2, 1, 3).unwrap();
    assert_eq!(a, b);
    assert_eq!(contents_of(&m1, &s1), contents_of(&m2, &s2));
    assert_eq!(m1.length, m2.length);
}

#[test]
fn deque_unpack_tags() {
    assert!(matches!(Instruction::unpack(&0), Ok(Instruction::Initialize)));
    assert!(matches!(Instruction::unpack(&1), Ok(Instruction::PushFront)));
    assert!(matches!(Instruction::unpack(&2), Ok(Instruction::PushBack)));
    assert!(matches!(Instruction::unpack(&3), Ok(Instruction::PopFront)));
    assert!(matches!(Instruction::unpack(&4), Ok(Instruction::PopBack)));
    assert!(matches!(Instruction::unpack(&5), Ok(Instruction::Get)));
    assert!(matches!(Instruction::unpack(&6), Ok(Instruction::Remove)));
    assert!(matches!(Instruction::unpack(&7), Ok(Instruction::Delete)));
    assert!(matches!(
        Instruction::unpack(&8),
        Err(DequeError::MalformedInput)
    ));
}

/// The stored metadata layout is seven little-endian 64-bit words, 56 bytes.
#[test]
fn deque_meta_byte_layout() {
    let (mut meta, mut segs) = initialize_deque(5, 4, 8).unwrap();
    push_back(&mut meta, &mut segs, &payload(&[1, 2, 3])).unwrap();
    pop_slice_front(&mut meta, &mut segs, 1).unwrap();

    let bytes = meta.to_bytes();
    assert_eq!(bytes.len(), 56);
    let mut expected = Vec::new();
    for v in [5u64, 4, 20, 1, 2, 2, 8] {
        expected.extend_from_slice(&v.to_le_bytes());
    }
    assert_eq!(bytes, expected);

    let decoded = DequeMeta::from_bytes(&bytes).unwrap();
    assert_eq!(decoded, meta);

    let short: Vec<u8> = vec![0; 55];
    assert_eq!(
        DequeMeta::from_bytes(&short),
        Err(DequeError::MalformedInput)
    );
}

/// Operation parameter payloads are little-endian 64-bit words.
#[test]
fn deque_params_byte_layout() {
    let mut bytes = Vec::new();
    bytes.extend_from_slice(&5u64.to_le_bytes());
    bytes.extend_from_slice(&4u64.to_le_bytes());
    let p = InitializeParams::from_bytes(&bytes).unwrap();
    assert_eq!(p, InitializeParams { max_length: 5, element_size: 4 });

    let pop = PopParams::from_bytes(&2u64.to_le_bytes().to_vec()).unwrap();
    assert_eq!(pop, PopParams { num_elements: 2 });

    let mut bytes = Vec::new();
    bytes.extend_from_slice(&1u64.to_le_bytes());
    bytes.extend_from_slice(&3u64.to_le_bytes());
    let g = GetParams::from_bytes(&bytes).unwrap();
    assert_eq!(g, GetParams { start: 1, end: 3 });

    let short: Vec<u8> = vec![0; 7];
    assert_eq!(PopParams::from_bytes(&short), Err(DequeError::MalformedInput));
}
