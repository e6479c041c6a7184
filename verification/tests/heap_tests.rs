use segstore::heap::{
    initialize_heap, peek, pop, push, Comparator, HeapError, HeapMeta, InitializeParams,
    Instruction, LittleEndianComparator,
};

fn elem(v: u32) -> Vec<u8> {
    v.to_le_bytes().to_vec()
}

fn payload(vs: &[u32]) -> Vec<u8> {
    let mut out = Vec::new();
    for v in vs {
        out.extend_from_slice(&v.to_le_bytes());
    }
    out
}

/// The comparator orders blobs as little-endian unsigned integers: the byte
/// at the highest index is the most significant.
#[test]
fn little_endian_comparison() {
    // 256 (= [0, 1]) is greater than 255 (= [255, 0])
    assert!(LittleEndianComparator::compare(&vec![0, 1], &vec![255, 0]) > 0);
    assert!(LittleEndianComparator::compare(&vec![255, 0], &vec![0, 1]) < 0);
    assert!(LittleEndianComparator::compare(&vec![7, 7], &vec![7, 7]) == 0);
    assert!(LittleEndianComparator::compare(&vec![1, 0, 0], &vec![0, 0, 1]) < 0);
}

/// Popping after arbitrary pushes yields a non-decreasing sequence, with the
/// elements spread over several segments.
#[test]
fn pops_come_out_sorted() {
    let (mut meta, mut segs) = initialize_heap::<LittleEndianComparator>(10, 4, 8, &Vec::new())
        .unwrap();
    assert_eq!(segs.len(), 5);
    for v in [41u32, 7, 900, 7, 256, 255, 3, 1000, 0, 12] {
        push::<LittleEndianComparator>(&mut meta, &mut segs, &elem(v)).unwrap();
    }
    let mut got: Vec<u32> = Vec::new();
    while meta.length > 0 {
        let top = peek(&meta, &segs).unwrap();
        let v = pop::<LittleEndianComparator>(&mut meta, &mut segs).unwrap();
        assert_eq!(top, v);
        got.push(u32::from_le_bytes(v.try_into().unwrap()));
    }
    assert_eq!(got, vec![0, 3, 7, 7, 12, 41, 255, 256, 900, 1000]);
}

/// Bulk construction sifts every parent down and produces a valid heap.
#[test]
fn heapify_initial_data() {
    let initial = payload(&[5, 3, 9, 1, 4, 8, 2]);
    let (mut meta, mut segs) = initialize_heap::<LittleEndianComparator>(8, 4, 12, &initial)
        .unwrap();
    assert_eq!(meta.length, 7);
    assert_eq!(peek(&meta, &segs).unwrap(), elem(1));
    let mut got: Vec<u32> = Vec::new();
    while meta.length > 0 {
        let v = pop::<LittleEndianComparator>(&mut meta, &mut segs).unwrap();
        got.push(u32::from_le_bytes(v.try_into().unwrap()));
    }
    assert_eq!(got, vec![1, 2, 3, 4, 5, 8, 9]);
}

/// Equal keys are all handed out, in a non-decreasing run.
#[test]
fn equal_keys_survive() {
    let (mut meta, mut segs) = initialize_heap::<LittleEndianComparator>(6, 4, 8, &Vec::new())
        .unwrap();
    for v in [5u32, 5, 1, 5, 1] {
        push::<LittleEndianComparator>(&mut meta, &mut segs, &elem(v)).unwrap();
    }
    let mut got: Vec<u32> = Vec::new();
    while meta.length > 0 {
        let v = pop::<LittleEndianComparator>(&mut meta, &mut segs).unwrap();
        got.push(u32::from_le_bytes(v.try_into().unwrap()));
    }
    assert_eq!(got, vec![1, 1, 5, 5, 5]);
}

#[test]
fn heap_errors_are_reported_without_effect() {
    let (mut meta, mut segs) = initialize_heap::<LittleEndianComparator>(2, 4, 8, &payload(&[1]))
        .unwrap();
    push::<LittleEndianComparator>(&mut meta, &mut segs, &elem(2)).unwrap();
    let meta_before = meta.clone();
    let segs_before = segs.clone();

    assert_eq!(
        push::<LittleEndianComparator>(&mut meta, &mut segs, &elem(3)),
        Err(HeapError::InsufficientSpace)
    );
    let short: Vec<u8> = vec![1, 2, 3];
    assert_eq!(
        push::<LittleEndianComparator>(&mut meta, &mut segs, &short),
        Err(HeapError::MalformedInput)
    );
    assert_eq!(meta, meta_before);
    assert_eq!(segs, segs_before);
}

#[test]
fn empty_heap_errors() {
    let (mut meta, mut segs) = initialize_heap::<LittleEndianComparator>(2, 4, 8, &Vec::new())
        .unwrap();
    assert_eq!(peek(&meta, &segs), Err(HeapError::RemoveFromEmpty));
    assert_eq!(
        pop::<LittleEndianComparator>(&mut meta, &mut segs),
        Err(HeapError::RemoveFromEmpty)
    );
}

#[test]
fn heap_initialize_rejects_bad_inputs() {
    let none: Vec<u8> = Vec::new();
    assert_eq!(
        initialize_heap::<LittleEndianComparator>(0, 4, 8, &none).err().unwrap(),
        HeapError::MalformedInput
    );
    assert_eq!(
        initialize_heap::<LittleEndianComparator>(4, 0, 8, &none).err().unwrap(),
        HeapError::MalformedInput
    );
    assert_eq!(
        initialize_heap::<LittleEndianComparator>(4, 16, 8, &none).err().unwrap(),
        HeapError::MalformedInput
    );
    assert_eq!(
        initialize_heap::<LittleEndianComparator>(u64::MAX, 2, 8, &none).err().unwrap(),
        HeapError::Overflow
    );
    let odd: Vec<u8> = vec![1, 2, 3];
    assert_eq!(
        initialize_heap::<LittleEndianComparator>(4, 4, 8, &odd).err().unwrap(),
        HeapError::MalformedInput
    );
    assert_eq!(
        initialize_heap::<LittleEndianComparator>(2, 4, 8, &payload(&[1, 2, 3])).err().unwrap(),
        HeapError::InsufficientSpace
    );
}

/// The same pushes and pops give the same values on a heap with one element
/// per segment and on a single-segment heap.
#[test]
fn heap_segment_crossing_equivalence() {
    let (mut m1, mut s1) = initialize_heap::<LittleEndianComparator>(8, 4, 4, &Vec::new()).unwrap();
    let (mut m2, mut s2) = initialize_heap::<LittleEndianComparator>(8, 4, 1024, &Vec::new())
        .unwrap();
    assert_eq!(s1.len(), 8);
    assert_eq!(s2.len(), 1);
    for v in [9u32, 2, 7, 2, 100, 1] {
        push::<LittleEndianComparator>(&mut m1, &mut s1, &elem(v)).unwrap();
        push::<LittleEndianComparator>(&mut m2, &mut s2, &elem(v)).unwrap();
    }
    while m1.length > 0 {
        let a = pop::<LittleEndianComparator>(&mut m1, &mut s1).unwrap();
        let b = pop::<LittleEndianComparator>(&mut m2, &mut s2).unwrap();
        assert_eq!(a, b);
    }
    assert_eq!(m2.length, 0);
}

#[test]
fn heap_unpack_tags() {
    assert!(matches!(Instruction::unpack(&0), Ok(Instruction::Initialize)));
    assert!(matches!(Instruction::unpack(&1), Ok(Instruction::Push)));
    assert!(matches!(Instruction::unpack(&2), Ok(Instruction::Pop)));
    assert!(matches!(Instruction::unpack(&3), Ok(Instruction::Peek)));
    assert!(matches!(Instruction::unpack(&4), Ok(Instruction::Delete)));
    assert!(matches!(
        Instruction::unpack(&5),
        Err(HeapError::MalformedInput)
    ));
}

/// The stored metadata layout is six little-endian 64-bit words, 48 bytes.
#[test]
fn heap_meta_byte_layout() {
    let (meta, _segs) = initialize_heap::<LittleEndianComparator>(4, 4, 8, &payload(&[6, 2, 4]))
        .unwrap();
    let bytes = meta.to_bytes();
    assert_eq!(bytes.len(), 48);
    let mut expected = Vec::new();
    for v in [4u64, 4, 16, 3, 2, 8] {
        expected.extend_from_slice(&v.to_le_bytes());
    }
    assert_eq!(bytes, expected);

    let decoded = HeapMeta::from_bytes(&bytes).unwrap();
    assert_eq!(decoded, meta);
    let short: Vec<u8> = vec![0; 47];
    assert_eq!(HeapMeta::from_bytes(&short), Err(HeapError::MalformedInput));
}

/// The initialize parameter payload is three little-endian 64-bit words.
#[test]
fn heap_params_byte_layout() {
    let mut bytes = Vec::new();
    bytes.extend_from_slice(&3u64.to_le_bytes());
    bytes.extend_from_slice(&8u64.to_le_bytes());
    bytes.extend_from_slice(&4u64.to_le_bytes());
    let p = InitializeParams::from_bytes(&bytes).unwrap();
    assert_eq!(p, InitializeParams { start_length: 3, max_length: 8, element_size: 4 });

    let short: Vec<u8> = vec![0; 16];
    assert_eq!(InitializeParams::from_bytes(&short), Err(HeapError::MalformedInput));
}
