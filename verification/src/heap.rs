//! Binary min-heap over segmented storage.
//!
//! The heap is laid out densely (no wraparound): the element at heap index
//! `i` is stored at position `i`, with the standard relations — parent of `i`
//! is `(i - 1) / 2`, children are `2i + 1` and `2i + 2`.  Ordering is
//! supplied by an injectable comparator over fixed-size byte blobs; the
//! engine only needs the comparator to be a total preorder on blobs of the
//! element size.

use vstd::prelude::*;
use vstd::arithmetic::div_mod::*;
use vstd::arithmetic::mul::*;

use vstd::bytes::{
    lemma_auto_spec_u64_to_from_le_bytes, spec_u64_from_le_bytes, spec_u64_to_le_bytes,
    u64_to_le_bytes,
};
use crate::translator::read_u64_at;
use crate::translator::{
    alloc_segments, chunk_at, chunks, element_at, lemma_element_in_bounds, lemma_quotient_exceeds,
    lemma_quotient_fits, read_element, segments_wf, swap_elements, write_element,
};

verus! {

broadcast use vstd::seq_lib::group_to_multiset_ensures;

/// Failures an operation can report.  Errors are detected during validation,
/// before any mutation.
#[derive(Copy, Clone, PartialEq, Eq, Debug)]
pub enum HeapError {
    /// An insert would push `length` beyond `max_length`.
    InsufficientSpace,
    /// A pop or peek was requested on an empty heap.
    RemoveFromEmpty,
    /// An arithmetic result does not fit the metadata's fixed-width fields.
    Overflow,
    /// A range is not contained in `[0, length]`.
    IndexOutofBounds,
    /// A byte payload is not a whole number of elements.
    MalformedInput,
}

/// Per-collection metadata.  All fields are fixed at creation except
/// `length`.
#[derive(Copy, Clone, PartialEq, Eq, Debug)]
pub struct HeapMeta {
    pub max_length: u64,
    pub element_size: u64,
    pub max_bytes: u64,
    pub length: u64,
    pub max_elements_per_segment: u64,
    pub max_bytes_per_segment: u64,
}

impl HeapMeta {
    /// Internal consistency of the metadata record alone.
    pub open spec fn wf(self) -> bool {
        &&& 1 <= self.element_size
        &&& 1 <= self.max_length
        &&& self.max_bytes == self.max_length * self.element_size
        &&& 1 <= self.max_elements_per_segment
        &&& self.max_bytes_per_segment == self.max_elements_per_segment * self.element_size
        &&& self.length <= self.max_length
    }

    /// The metadata together with storage segments sized to match it.
    pub open spec fn valid(self, segs: Seq<Vec<u8>>) -> bool {
        &&& self.wf()
        &&& segments_wf(
            segs,
            self.element_size as int,
            self.max_elements_per_segment as int,
            self.max_length as int,
        )
    }

    /// The logical contents: the byte blobs of the `length` elements, in
    /// heap-index order.
    pub open spec fn contents(self, segs: Seq<Vec<u8>>) -> Seq<Seq<u8>> {
        heap_view(
            segs,
            self.element_size as int,
            self.max_elements_per_segment as int,
            self.length as int,
        )
    }

    /// The fields fixed at creation agree.
    pub open spec fn same_geometry(self, other: HeapMeta) -> bool {
        &&& self.max_length == other.max_length
        &&& self.element_size == other.element_size
        &&& self.max_bytes == other.max_bytes
        &&& self.max_elements_per_segment == other.max_elements_per_segment
        &&& self.max_bytes_per_segment == other.max_bytes_per_segment
    }
}

impl HeapMeta {
    /// The fixed 48-byte stored layout: the fields as little-endian
    /// 64-bit words, in declaration order.
    pub open spec fn spec_bytes(self) -> Seq<u8> {
        spec_u64_to_le_bytes(self.max_length) + spec_u64_to_le_bytes(self.element_size) + spec_u64_to_le_bytes(self.max_bytes) + spec_u64_to_le_bytes(self.length) + spec_u64_to_le_bytes(self.max_elements_per_segment) + spec_u64_to_le_bytes(self.max_bytes_per_segment)
    }

    /// Encodes the metadata record into its fixed 48-byte layout.
    pub fn to_bytes(&self) -> (r: Vec<u8>)
        ensures
            r@ == self.spec_bytes(),
            r@.len() == 48,
    {
        proof {
            lemma_auto_spec_u64_to_from_le_bytes();
        }
        let mut r = u64_to_le_bytes(self.max_length);
        let mut f = u64_to_le_bytes(self.element_size);
        r.append(&mut f);
        let mut f = u64_to_le_bytes(self.max_bytes);
        r.append(&mut f);
        let mut f = u64_to_le_bytes(self.length);
        r.append(&mut f);
        let mut f = u64_to_le_bytes(self.max_elements_per_segment);
        r.append(&mut f);
        let mut f = u64_to_le_bytes(self.max_bytes_per_segment);
        r.append(&mut f);
        proof {
            assert(r@ =~= self.spec_bytes());
        }
        r
    }

    /// Decodes a metadata record from its fixed 48-byte layout; any
    /// other length is malformed.
    pub fn from_bytes(bytes: &Vec<u8>) -> (r: Result<HeapMeta, HeapError>)
        ensures
            bytes@.len() != 48 ==> r == Err::<HeapMeta, HeapError>(HeapError::MalformedInput),
            bytes@.len() == 48 ==> (r matches Ok(m) && m.spec_bytes() == bytes@),
    {
        if bytes.len() != 48 {
            return Err(HeapError::MalformedInput);
        }
        let m = HeapMeta {
            max_length: read_u64_at(bytes, 0),
            element_size: read_u64_at(bytes, 8),
            max_bytes: read_u64_at(bytes, 16),
            length: read_u64_at(bytes, 24),
            max_elements_per_segment: read_u64_at(bytes, 32),
            max_bytes_per_segment: read_u64_at(bytes, 40),
        };
        proof {
            lemma_auto_spec_u64_to_from_le_bytes();
            assert(m.spec_bytes() =~= bytes@);
        }
        Ok(m)
    }
}

/// The stored layout determines the record: equal encodings mean equal
/// metadata, so decoding always restores the encoded record bit-exactly.
pub proof fn lemma_meta_bytes_injective(m1: HeapMeta, m2: HeapMeta)
    requires
        m1.spec_bytes() == m2.spec_bytes(),
    ensures
        m1 == m2,
{
    lemma_auto_spec_u64_to_from_le_bytes();
    assert(m1.spec_bytes().subrange(0, 8) =~= spec_u64_to_le_bytes(m1.max_length));
    assert(m2.spec_bytes().subrange(0, 8) =~= spec_u64_to_le_bytes(m2.max_length));
    assert(m1.spec_bytes().subrange(8, 16) =~= spec_u64_to_le_bytes(m1.element_size));
    assert(m2.spec_bytes().subrange(8, 16) =~= spec_u64_to_le_bytes(m2.element_size));
    assert(m1.spec_bytes().subrange(16, 24) =~= spec_u64_to_le_bytes(m1.max_bytes));
    assert(m2.spec_bytes().subrange(16, 24) =~= spec_u64_to_le_bytes(m2.max_bytes));
    assert(m1.spec_bytes().subrange(24, 32) =~= spec_u64_to_le_bytes(m1.length));
    assert(m2.spec_bytes().subrange(24, 32) =~= spec_u64_to_le_bytes(m2.length));
    assert(m1.spec_bytes().subrange(32, 40) =~= spec_u64_to_le_bytes(m1.max_elements_per_segment));
    assert(m2.spec_bytes().subrange(32, 40) =~= spec_u64_to_le_bytes(m2.max_elements_per_segment));
    assert(m1.spec_bytes().subrange(40, 48) =~= spec_u64_to_le_bytes(m1.max_bytes_per_segment));
    assert(m2.spec_bytes().subrange(40, 48) =~= spec_u64_to_le_bytes(m2.max_bytes_per_segment));
}

/// The byte blobs of the first `len` positions of the storage.
pub open spec fn heap_view(segs: Seq<Vec<u8>>, es: int, meps: int, len: int) -> Seq<Seq<u8>> {
    Seq::new(len as nat, |i: int| element_at(segs, es, meps, i))
}

/// Every element of `c` is exactly `es` bytes.
pub open spec fn uniform_len(c: Seq<Seq<u8>>, es: int) -> bool {
    forall|i: int| 0 <= i < c.len() ==> #[trigger] c[i].len() == es
}

/// An injectable three-way comparator over fixed-size byte blobs.  For the
/// sift operations to restore the heap order, the comparator must be a total
/// preorder on blobs of equal length: the sign must flip when the arguments
/// swap, and "not greater" must be transitive.
pub trait Comparator: Sized {
    /// The mathematical comparison this comparator computes: negative when
    /// the first blob orders strictly first, zero when they tie, positive
    /// otherwise.
    spec fn cmp_spec(a: Seq<u8>, b: Seq<u8>) -> int;

    /// Swapping the arguments flips the sign of the comparison.
    proof fn lemma_antisymmetry(a: Seq<u8>, b: Seq<u8>)
        requires
            a.len() == b.len(),
        ensures
            (Self::cmp_spec(a, b) <= 0) <==> (Self::cmp_spec(b, a) >= 0),
    ;

    /// "Not greater" is transitive.
    proof fn lemma_transitivity(a: Seq<u8>, b: Seq<u8>, c: Seq<u8>)
        requires
            a.len() == b.len(),
            b.len() == c.len(),
            Self::cmp_spec(a, b) <= 0,
            Self::cmp_spec(b, c) <= 0,
        ensures
            Self::cmp_spec(a, c) <= 0,
    ;

    /// Three-way compare of two equal-length blobs.
    fn compare(a: &Vec<u8>, b: &Vec<u8>) -> (r: i64)
        requires
            a@.len() == b@.len(),
        ensures
            (r < 0) == (Self::cmp_spec(a@, b@) < 0),
            (r == 0) == (Self::cmp_spec(a@, b@) == 0),
            (r > 0) == (Self::cmp_spec(a@, b@) > 0),
    ;
}

/// The first blob orders no later than the second under comparator `C`.
pub open spec fn heap_le<C: Comparator>(a: Seq<u8>, b: Seq<u8>) -> bool {
    C::cmp_spec(a, b) <= 0
}

/// The heap order holds for every parent/child pair whose parent index is at
/// least `lo`.
pub open spec fn heap_ordered_from<C: Comparator>(c: Seq<Seq<u8>>, lo: int) -> bool {
    forall|j: int|
        1 <= j < c.len() && lo <= (j - 1) / 2 ==> heap_le::<C>(c[(j - 1) / 2], #[trigger] c[j])
}

/// The min-heap order: every element orders no later than its children.
pub open spec fn heap_ordered<C: Comparator>(c: Seq<Seq<u8>>) -> bool {
    heap_ordered_from::<C>(c, 0)
}

/// The child position a sift-down step moves to: the right child when it
/// exists and the left one orders no earlier, else the left child.
pub open spec fn spec_smaller_child<C: Comparator>(c: Seq<Seq<u8>>, i: int) -> int {
    if 2 * i + 2 < c.len() && C::cmp_spec(c[2 * i + 1], c[2 * i + 2]) >= 0 {
        2 * i + 2
    } else {
        2 * i + 1
    }
}

/// The storage after sifting the element at `i` down: while some child
/// orders strictly earlier, the element swaps with the earliest-ordering
/// child.
pub open spec fn spec_sift_down<C: Comparator>(c: Seq<Seq<u8>>, i: int) -> Seq<Seq<u8>>
    decreases c.len() - i
        when 0 <= i
{
    let ch = spec_smaller_child::<C>(c, i);
    if ch >= c.len() {
        c
    } else if C::cmp_spec(c[i], c[ch]) <= 0 {
        c
    } else {
        spec_sift_down::<C>(c.update(i, c[ch]).update(ch, c[i]), ch)
    }
}

/// The storage after sifting the element at `i` up: while it orders strictly
/// earlier than its parent, it swaps with the parent.
pub open spec fn spec_sift_up<C: Comparator>(c: Seq<Seq<u8>>, i: int) -> Seq<Seq<u8>>
    decreases i
        when 0 <= i < c.len()
{
    if i == 0 {
        c
    } else {
        let p = (i - 1) / 2;
        if C::cmp_spec(c[i], c[p]) >= 0 {
            c
        } else {
            spec_sift_up::<C>(c.update(i, c[p]).update(p, c[i]), p)
        }
    }
}

/// The storage after the bulk construction's sift-downs at every index from
/// `i` down to the root.
pub open spec fn spec_heapify_from<C: Comparator>(c: Seq<Seq<u8>>, i: int) -> Seq<Seq<u8>>
    decreases i + 1
        when -1 <= i
{
    if i < 0 {
        c
    } else {
        spec_heapify_from::<C>(spec_sift_down::<C>(c, i), i - 1)
    }
}

/// The storage after bulk heapify: every index from the last parent down to
/// the root sifted down.
pub open spec fn spec_heapify<C: Comparator>(c: Seq<Seq<u8>>) -> Seq<Seq<u8>> {
    if c.len() == 0 {
        c
    } else {
        spec_heapify_from::<C>(c, c.len() as int / 2)
    }
}

/// The contents a push leaves: the new element lands at the first free
/// position and sifts up.
pub open spec fn spec_push_result<C: Comparator>(c: Seq<Seq<u8>>, x: Seq<u8>) -> Seq<Seq<u8>> {
    spec_sift_up::<C>(c.push(x), c.len() as int)
}

/// The contents a pop leaves: the last element moves to the root and sifts
/// down.
pub open spec fn spec_pop_leaves<C: Comparator>(c: Seq<Seq<u8>>) -> Seq<Seq<u8>>
    recommends
        c.len() > 0,
{
    if c.len() == 1 {
        Seq::<Seq<u8>>::empty()
    } else {
        spec_sift_down::<C>(c.subrange(0, c.len() - 1).update(0, c.last()), 0)
    }
}

/// In a well-ordered heap of equal-sized elements the root orders no later
/// than any element.
pub proof fn lemma_root_minimal<C: Comparator>(c: Seq<Seq<u8>>, es: int, i: int)
    requires
        heap_ordered::<C>(c),
        uniform_len(c, es),
        0 <= i < c.len(),
    ensures
        heap_le::<C>(c[0], c[i]),
    decreases i,
{
    if i == 0 {
        C::lemma_antisymmetry(c[0], c[0]);
    } else {
        let p = (i - 1) / 2;
        lemma_root_minimal::<C>(c, es, p);
        assert(heap_le::<C>(c[p], c[i]));
        C::lemma_transitivity(c[0], c[p], c[i]);
    }
}

/// Valid storage yields elements of exactly the element size.
pub proof fn lemma_heap_view_uniform(segs: Seq<Vec<u8>>, es: int, meps: int, cap: int, len: int)
    requires
        segments_wf(segs, es, meps, cap),
        0 <= len <= cap,
    ensures
        uniform_len(heap_view(segs, es, meps, len), es),
{
    assert forall|i: int| 0 <= i < len implies #[trigger] heap_view(segs, es, meps, len)[i].len()
        == es by {
        lemma_element_in_bounds(segs, es, meps, cap, i);
    }
}

/// Compares two blobs as little-endian unsigned integers: the byte at the
/// highest index is the most significant, and ties recurse on the rest.
/// Blobs are compared only up to the shorter length; the engine always
/// compares blobs of equal length.
pub open spec fn le_bytes_cmp(a: Seq<u8>, b: Seq<u8>) -> int
    decreases a.len(),
{
    if a.len() == 0 || b.len() == 0 {
        0
    } else if a.last() > b.last() {
        1
    } else if a.last() < b.last() {
        -1
    } else {
        le_bytes_cmp(a.drop_last(), b.drop_last())
    }
}

/// The comparison flips sign when its arguments swap.
proof fn lemma_le_bytes_cmp_flip(a: Seq<u8>, b: Seq<u8>)
    ensures
        le_bytes_cmp(a, b) == -le_bytes_cmp(b, a),
    decreases a.len(),
{
    if a.len() == 0 || b.len() == 0 {
    } else if a.last() > b.last() || a.last() < b.last() {
    } else {
        lemma_le_bytes_cmp_flip(a.drop_last(), b.drop_last());
    }
}

/// "Not greater" is transitive for the little-endian byte comparison of
/// equal-length blobs.
proof fn lemma_le_bytes_cmp_trans(a: Seq<u8>, b: Seq<u8>, c: Seq<u8>)
    requires
        a.len() == b.len(),
        b.len() == c.len(),
        le_bytes_cmp(a, b) <= 0,
        le_bytes_cmp(b, c) <= 0,
    ensures
        le_bytes_cmp(a, c) <= 0,
    decreases a.len(),
{
    if a.len() == 0 {
    } else {
        let x = a.last();
        let y = b.last();
        let z = c.last();
        assert(x <= y);
        assert(y <= z);
        if x == z {
            lemma_le_bytes_cmp_trans(a.drop_last(), b.drop_last(), c.drop_last());
        }
    }
}

/// Orders byte blobs as little-endian unsigned integers: the byte at the
/// highest index is the most significant.
pub struct LittleEndianComparator;

impl Comparator for LittleEndianComparator {
    open spec fn cmp_spec(a: Seq<u8>, b: Seq<u8>) -> int {
        le_bytes_cmp(a, b)
    }

    proof fn lemma_antisymmetry(a: Seq<u8>, b: Seq<u8>) {
        lemma_le_bytes_cmp_flip(a, b);
    }

    proof fn lemma_transitivity(a: Seq<u8>, b: Seq<u8>, c: Seq<u8>) {
        lemma_le_bytes_cmp_trans(a, b, c);
    }

    fn compare(a: &Vec<u8>, b: &Vec<u8>) -> (r: i64) {
        let n = a.len();
        proof {
            assert(a@.subrange(0, n as int) =~= a@);
            assert(b@.subrange(0, n as int) =~= b@);
        }
        let mut i: usize = n;
        while i > 0
            invariant
                i <= n,
                n == a@.len(),
                n == b@.len(),
                le_bytes_cmp(a@.subrange(0, i as int), b@.subrange(0, i as int)) == le_bytes_cmp(
                    a@,
                    b@,
                ),
            decreases i,
        {
            i -= 1;
            proof {
                assert(a@.subrange(0, i + 1).last() == a@[i as int]);
                assert(b@.subrange(0, i + 1).last() == b@[i as int]);
                assert(a@.subrange(0, i + 1).drop_last() =~= a@.subrange(0, i as int));
                assert(b@.subrange(0, i + 1).drop_last() =~= b@.subrange(0, i as int));
            }
            if a[i] > b[i] {
                return 1;
            }
            if a[i] < b[i] {
                return -1;
            }
        }
        proof {
            assert(le_bytes_cmp(a@.subrange(0, 0), b@.subrange(0, 0)) == 0);
        }
        0
    }
}

/// Swapping two positions of a sequence keeps its multiset of elements.
proof fn lemma_swap_multiset<T>(s: Seq<T>, i: int, j: int)
    requires
        0 <= i < s.len(),
        0 <= j < s.len(),
        i != j,
    ensures
        s.update(i, s[j]).update(j, s[i]).to_multiset() == s.to_multiset(),
{
    broadcast use vstd::multiset::group_multiset_axioms;

    let s1 = s.update(i, s[j]);
    let s2 = s1.update(j, s[i]);
    assert(s1.to_multiset() == s.to_multiset().insert(s[j]).remove(s[i]));
    assert(s1[j] == s[j]);
    assert(s2.to_multiset() == s1.to_multiset().insert(s[i]).remove(s[j]));
    assert(s.to_multiset().count(s[i]) > 0);
    assert(s.to_multiset().count(s[j]) > 0);
    assert(s2.to_multiset() =~= s.to_multiset());
}

/// Restores the heap order below `start_at` by swapping an out-of-place
/// element downward: the standard sift-down, each storage access going
/// through the segment address translator.
#[verifier::loop_isolation(false)]
fn sift_down<C: Comparator>(
    segs: &mut Vec<Vec<u8>>,
    es: u64,
    meps: u64,
    cap: u64,
    len: u64,
    start_at: u64,
)
    requires
        segments_wf(old(segs)@, es as int, meps as int, cap as int),
        meps * es <= u64::MAX,
        len <= cap,
        start_at < len,
        heap_ordered_from::<C>(
            heap_view(old(segs)@, es as int, meps as int, len as int),
            start_at as int + 1,
        ),
    ensures
        segments_wf(final(segs)@, es as int, meps as int, cap as int),
        heap_ordered_from::<C>(
            heap_view(final(segs)@, es as int, meps as int, len as int),
            start_at as int,
        ),
        heap_view(final(segs)@, es as int, meps as int, len as int).to_multiset() == heap_view(
            old(segs)@,
            es as int,
            meps as int,
            len as int,
        ).to_multiset(),
        heap_view(final(segs)@, es as int, meps as int, len as int) == spec_sift_down::<C>(
            heap_view(old(segs)@, es as int, meps as int, len as int),
            start_at as int,
        ),
{
    let ghost hv0 = heap_view(old(segs)@, es as int, meps as int, len as int);
    let mut cur = start_at;
    let mut done: bool = false;
    while !done && cur < len / 2
        invariant
            start_at <= cur < len,
            start_at < cur ==> start_at <= (cur as int - 1) / 2,
            segments_wf(segs@, es as int, meps as int, cap as int),
            heap_view(segs@, es as int, meps as int, len as int).to_multiset()
                == hv0.to_multiset(),
            !done ==> spec_sift_down::<C>(
                heap_view(segs@, es as int, meps as int, len as int),
                cur as int,
            ) == spec_sift_down::<C>(hv0, start_at as int),
            done ==> heap_view(segs@, es as int, meps as int, len as int) == spec_sift_down::<C>(
                hv0,
                start_at as int,
            ),
            ({
                let hv = heap_view(segs@, es as int, meps as int, len as int);
                &&& forall|j: int|
                    1 <= j < len && start_at <= (j - 1) / 2 && (j - 1) / 2 != cur as int
                        ==> heap_le::<C>(hv[(j - 1) / 2], #[trigger] hv[j])
                &&& (start_at < cur ==> forall|j: int|
                    1 <= j < len && (j - 1) / 2 == cur as int ==> heap_le::<C>(
                        hv[(cur as int - 1) / 2],
                        #[trigger] hv[j],
                    ))
                &&& (done ==> heap_ordered_from::<C>(hv, start_at as int))
            }),
        decreases len - cur, (if done { 0int } else { 1int }),
    {
        let ghost hv = heap_view(segs@, es as int, meps as int, len as int);
        proof {
            lemma_heap_view_uniform(segs@, es as int, meps as int, cap as int, len as int);
        }
        let child_l = 2 * cur + 1;
        let e_cur = read_element(segs, es, meps, cap, cur);
        let e_l = read_element(segs, es, meps, cap, child_l);
        let mut child = child_l;
        let mut e_child = e_l;
        let child_r = 2 * cur + 2;
        if child_r < len {
            let e_r = read_element(segs, es, meps, cap, child_r);
            if C::compare(&e_child, &e_r) >= 0 {
                proof {
                    C::lemma_antisymmetry(e_child@, e_r@);
                    C::lemma_antisymmetry(e_r@, e_child@);
                }
                child = child_r;
                e_child = e_r;
            }
        }
        proof {
            // the chosen child orders no later than any existing child
            C::lemma_antisymmetry(e_child@, e_child@);
            assert(child_l < len ==> heap_le::<C>(e_child@, hv[child_l as int]));
            assert(child_r < len ==> heap_le::<C>(e_child@, hv[child_r as int]));
            assert((child as int - 1) / 2 == cur as int);
            assert(spec_smaller_child::<C>(hv, cur as int) == child as int);
        }
        if C::compare(&e_cur, &e_child) <= 0 {
            done = true;
            proof {
                assert(spec_sift_down::<C>(hv, cur as int) == hv);
                let hv2 = heap_view(segs@, es as int, meps as int, len as int);
                assert forall|j: int| 1 <= j < len && start_at <= (j - 1) / 2 implies heap_le::<C>(
                    hv2[(j - 1) / 2],
                    #[trigger] hv2[j],
                ) by {
                    if (j - 1) / 2 == cur as int {
                        assert(j == child_l as int || j == child_r as int);
                        C::lemma_transitivity(e_cur@, e_child@, hv2[j]);
                    }
                }
            }
        } else {
            proof {
                C::lemma_antisymmetry(e_cur@, e_child@);
            }
            swap_elements(segs, es, meps, cap, cur, child);
            proof {
                let hv2 = heap_view(segs@, es as int, meps as int, len as int);
                assert(hv2 =~= hv.update(cur as int, hv[child as int]).update(
                    child as int,
                    hv[cur as int],
                ));
                assert(spec_sift_down::<C>(hv, cur as int) == spec_sift_down::<C>(
                    hv2,
                    child as int,
                ));
                lemma_swap_multiset(hv, cur as int, child as int);
                let c = child as int;
                let cu = cur as int;
                assert forall|j: int|
                    1 <= j < len && start_at <= (j - 1) / 2 && (j - 1) / 2 != c implies heap_le::<
                    C,
                >(hv2[(j - 1) / 2], #[trigger] hv2[j]) by {
                    let p = (j - 1) / 2;
                    if j == c {
                        // the pair (cur, child) now holds: the old child value
                        // moved up and the old parent value moved down
                        assert(heap_le::<C>(hv2[cu], hv2[j]));
                    } else if p == cu {
                        // the sibling of the chosen child
                        assert(hv2[j] == hv[j]);
                        assert(heap_le::<C>(e_child@, hv[j]));
                    } else if j == cu {
                        // the pair (parent(cur), cur): the chosen child value
                        // is above the old grandchildren bound
                        assert(start_at < cur);
                        assert(heap_le::<C>(hv[(cu - 1) / 2], hv[c]));
                    } else {
                        assert(hv2[p] == hv[p]);
                        assert(hv2[j] == hv[j]);
                    }
                }
                assert forall|j: int| 1 <= j < len && (j - 1) / 2 == c implies heap_le::<C>(
                    hv2[(c - 1) / 2],
                    #[trigger] hv2[j],
                ) by {
                    assert(hv2[j] == hv[j]);
                    assert(heap_le::<C>(hv[c], hv[j]));
                }
            }
            cur = child;
        }
    }
    proof {
        if !done {
            let hv2 = heap_view(segs@, es as int, meps as int, len as int);
            assert(2 * cur as int + 1 >= len);
            assert(spec_smaller_child::<C>(hv2, cur as int) >= len);
            assert(spec_sift_down::<C>(hv2, cur as int) == hv2);
            assert forall|j: int| 1 <= j < len && start_at <= (j - 1) / 2 implies heap_le::<C>(
                hv2[(j - 1) / 2],
                #[trigger] hv2[j],
            ) by {
                assert((j - 1) / 2 != cur as int);
            }
        }
    }
}

/// Restores the heap order after an insertion at position `len - 1` by
/// swapping the new element upward: the standard sift-up.
#[verifier::loop_isolation(false)]
fn sift_up<C: Comparator>(segs: &mut Vec<Vec<u8>>, es: u64, meps: u64, cap: u64, len: u64)
    requires
        segments_wf(old(segs)@, es as int, meps as int, cap as int),
        meps * es <= u64::MAX,
        1 <= len <= cap,
        ({
            let hv = heap_view(old(segs)@, es as int, meps as int, len as int);
            forall|j: int|
                1 <= j < len && j != len - 1 ==> heap_le::<C>(hv[(j - 1) / 2], #[trigger] hv[j])
        }),
    ensures
        segments_wf(final(segs)@, es as int, meps as int, cap as int),
        heap_ordered::<C>(heap_view(final(segs)@, es as int, meps as int, len as int)),
        heap_view(final(segs)@, es as int, meps as int, len as int).to_multiset() == heap_view(
            old(segs)@,
            es as int,
            meps as int,
            len as int,
        ).to_multiset(),
        heap_view(final(segs)@, es as int, meps as int, len as int) == spec_sift_up::<C>(
            heap_view(old(segs)@, es as int, meps as int, len as int),
            len as int - 1,
        ),
{
    let ghost hv0 = heap_view(old(segs)@, es as int, meps as int, len as int);
    let mut cur = len - 1;
    let mut done: bool = false;
    while !done && cur != 0
        invariant
            cur < len,
            segments_wf(segs@, es as int, meps as int, cap as int),
            heap_view(segs@, es as int, meps as int, len as int).to_multiset()
                == hv0.to_multiset(),
            !done ==> spec_sift_up::<C>(
                heap_view(segs@, es as int, meps as int, len as int),
                cur as int,
            ) == spec_sift_up::<C>(hv0, len as int - 1),
            done ==> heap_view(segs@, es as int, meps as int, len as int) == spec_sift_up::<C>(
                hv0,
                len as int - 1,
            ),
            ({
                let hv = heap_view(segs@, es as int, meps as int, len as int);
                &&& forall|j: int|
                    1 <= j < len && j != cur as int ==> heap_le::<C>(
                        hv[(j - 1) / 2],
                        #[trigger] hv[j],
                    )
                &&& (cur != 0 ==> forall|j: int|
                    1 <= j < len && (j - 1) / 2 == cur as int ==> heap_le::<C>(
                        hv[(cur as int - 1) / 2],
                        #[trigger] hv[j],
                    ))
                &&& (done ==> heap_ordered::<C>(hv))
            }),
        decreases cur, (if done { 0int } else { 1int }),
    {
        let ghost hv = heap_view(segs@, es as int, meps as int, len as int);
        proof {
            lemma_heap_view_uniform(segs@, es as int, meps as int, cap as int, len as int);
        }
        let par = (cur - 1) / 2;
        let e_cur = read_element(segs, es, meps, cap, cur);
        let e_par = read_element(segs, es, meps, cap, par);
        if C::compare(&e_cur, &e_par) >= 0 {
            done = true;
            proof {
                assert(spec_sift_up::<C>(hv, cur as int) == hv);
                C::lemma_antisymmetry(e_par@, e_cur@);
                let hv2 = heap_view(segs@, es as int, meps as int, len as int);
                assert(heap_le::<C>(hv2[(cur as int - 1) / 2], hv2[cur as int]));
                assert forall|j: int| 1 <= j < len implies heap_le::<C>(
                    hv2[(j - 1) / 2],
                    #[trigger] hv2[j],
                ) by {
                    if j != cur as int {
                        assert(heap_le::<C>(hv[(j - 1) / 2], hv[j]));
                    }
                }
            }
        } else {
            proof {
                C::lemma_antisymmetry(e_cur@, e_par@);
            }
            swap_elements(segs, es, meps, cap, cur, par);
            proof {
                let hv2 = heap_view(segs@, es as int, meps as int, len as int);
                let cu = cur as int;
                let pa = par as int;
                assert(hv2 =~= hv.update(cu, hv[pa]).update(pa, hv[cu]));
                assert(spec_sift_up::<C>(hv, cu) == spec_sift_up::<C>(hv2, pa));
                lemma_swap_multiset(hv, cu, pa);
                assert forall|j: int| 1 <= j < len && j != pa implies heap_le::<C>(
                    hv2[(j - 1) / 2],
                    #[trigger] hv2[j],
                ) by {
                    let p = (j - 1) / 2;
                    if j == cu {
                        // the swapped pair itself
                        assert(heap_le::<C>(hv[cu], hv[pa]));
                    } else if p == pa {
                        // the sibling of cur: the new value at par orders
                        // before the old one, which ordered before the sibling
                        assert(hv2[j] == hv[j]);
                        C::lemma_transitivity(hv[cu], hv[pa], hv[j]);
                    } else if p == cu {
                        // the children of cur are above the old parent value
                        assert(hv2[j] == hv[j]);
                        assert(heap_le::<C>(hv[(cu - 1) / 2], hv[j]));
                    } else {
                        assert(hv2[p] == hv[p]);
                        assert(hv2[j] == hv[j]);
                    }
                }
                if par != 0 {
                    assert forall|j: int| 1 <= j < len && (j - 1) / 2 == pa implies heap_le::<C>(
                        hv2[(pa - 1) / 2],
                        #[trigger] hv2[j],
                    ) by {
                        assert(hv2[(pa - 1) / 2] == hv[(pa - 1) / 2]);
                        assert(heap_le::<C>(hv[(pa - 1) / 2], hv[pa]));
                        if j == cu {
                        } else {
                            assert(hv2[j] == hv[j]);
                            assert(heap_le::<C>(hv[pa], hv[j]));
                            C::lemma_transitivity(hv[(pa - 1) / 2], hv[pa], hv[j]);
                        }
                    }
                }
            }
            cur = par;
        }
    }
    proof {
        if !done {
            let hv2 = heap_view(segs@, es as int, meps as int, len as int);
            assert(spec_sift_up::<C>(hv2, 0) == hv2);
        }
    }
}

/// Inserts one element, or fails without effect.  The new element is written
/// at the first free position and sifted up, so the heap order holds again.
pub fn push<C: Comparator>(meta: &mut HeapMeta, segs: &mut Vec<Vec<u8>>, data: &Vec<u8>) -> (r:
    Result<(), HeapError>)
    requires
        old(meta).valid(old(segs)@),
        heap_ordered::<C>(old(meta).contents(old(segs)@)),
    ensures
        final(meta).valid(final(segs)@),
        final(meta).same_geometry(*old(meta)),
        ({
            let c = old(meta).contents(old(segs)@);
            if data@.len() != old(meta).element_size {
                r == Err::<(), HeapError>(HeapError::MalformedInput) && *final(meta) == *old(meta)
                    && final(segs)@ == old(segs)@
            } else if old(meta).length >= old(meta).max_length {
                r == Err::<(), HeapError>(HeapError::InsufficientSpace) && *final(meta) == *old(
                    meta,
                ) && final(segs)@ == old(segs)@
            } else {
                &&& r == Ok::<(), HeapError>(())
                &&& final(meta).length == old(meta).length + 1
                &&& heap_ordered::<C>(final(meta).contents(final(segs)@))
                &&& final(meta).contents(final(segs)@).to_multiset() == c.to_multiset().insert(
                    data@,
                )
                &&& final(meta).contents(final(segs)@) == spec_push_result::<C>(c, data@)
            }
        }),
{
    let es = meta.element_size;
    let meps = meta.max_elements_per_segment;
    let ml = meta.max_length;
    if data.len() as u64 != es {
        return Err(HeapError::MalformedInput);
    }
    if meta.length >= ml {
        return Err(HeapError::InsufficientSpace);
    }
    let pos = meta.length;
    let ghost c0 = meta.contents(segs@);
    proof {
        assert(data@.subrange(0, es as int) =~= data@);
    }
    write_element(segs, es, meps, ml, pos, data, 0);
    proof {
        let hv1 = heap_view(segs@, es as int, meps as int, pos as int + 1);
        assert(hv1 =~= c0.push(data@));
        assert forall|j: int| 1 <= j < pos as int + 1 && j != pos as int implies heap_le::<C>(
            hv1[(j - 1) / 2],
            #[trigger] hv1[j],
        ) by {
            assert(hv1[j] == c0[j]);
            assert(hv1[(j - 1) / 2] == c0[(j - 1) / 2]);
            assert(heap_le::<C>(c0[(j - 1) / 2], c0[j]));
        }
        assert(c0.push(data@).to_multiset() == c0.to_multiset().insert(data@));
    }
    sift_up::<C>(segs, es, meps, ml, pos + 1);
    meta.length = pos + 1;
    proof {
        assert(meta.contents(segs@) == heap_view(segs@, es as int, meps as int, pos as int + 1));
    }
    Ok(())
}

/// Removes and returns the root — under the comparator, a least element.
/// The last element moves to the root and is sifted down, so the heap order
/// holds again.
pub fn pop<C: Comparator>(meta: &mut HeapMeta, segs: &mut Vec<Vec<u8>>) -> (r: Result<
    Vec<u8>,
    HeapError,
>)
    requires
        old(meta).valid(old(segs)@),
        heap_ordered::<C>(old(meta).contents(old(segs)@)),
    ensures
        final(meta).valid(final(segs)@),
        final(meta).same_geometry(*old(meta)),
        ({
            let c = old(meta).contents(old(segs)@);
            if old(meta).length == 0 {
                r == Err::<Vec<u8>, HeapError>(HeapError::RemoveFromEmpty) && *final(meta) == *old(
                    meta,
                ) && final(segs)@ == old(segs)@
            } else {
                &&& r matches Ok(v) && v@ == c[0]
                &&& final(meta).length == old(meta).length - 1
                &&& heap_ordered::<C>(final(meta).contents(final(segs)@))
                &&& final(meta).contents(final(segs)@).to_multiset() == c.to_multiset().remove(
                    c[0],
                )
                &&& final(meta).contents(final(segs)@) == spec_pop_leaves::<C>(c)
            }
        }),
{
    let es = meta.element_size;
    let meps = meta.max_elements_per_segment;
    let ml = meta.max_length;
    if meta.length == 0 {
        return Err(HeapError::RemoveFromEmpty);
    }
    let ghost c0 = meta.contents(segs@);
    let ret = read_element(segs, es, meps, ml, 0);
    let last = meta.length - 1;
    if last > 0 {
        let e_last = read_element(segs, es, meps, ml, last);
        proof {
            assert(e_last@.subrange(0, es as int) =~= e_last@);
        }
        write_element(segs, es, meps, ml, 0, &e_last, 0);
        proof {
            broadcast use vstd::multiset::group_multiset_axioms;

            let hv1 = heap_view(segs@, es as int, meps as int, last as int);
            let upd = c0.subrange(0, last as int).update(0, c0[last as int]);
            assert(hv1 =~= upd);
            assert forall|j: int| 1 <= j < last && 1 <= (j - 1) / 2 implies heap_le::<C>(
                hv1[(j - 1) / 2],
                #[trigger] hv1[j],
            ) by {
                assert(hv1[j] == c0[j]);
                assert(hv1[(j - 1) / 2] == c0[(j - 1) / 2]);
                assert(heap_le::<C>(c0[(j - 1) / 2], c0[j]));
            }
            let a = c0.subrange(0, last as int);
            assert(c0.remove(last as int) =~= a);
            assert(c0.remove(last as int).to_multiset() == c0.to_multiset().remove(
                c0[last as int],
            ));
            assert(upd.to_multiset() == a.to_multiset().insert(c0[last as int]).remove(a[0]));
            assert(a[0] == c0[0]);
            assert(c0.contains(c0[last as int]));
            assert(c0.to_multiset().count(c0[last as int]) > 0);
            assert(hv1.to_multiset() =~= c0.to_multiset().remove(c0[0]));
        }
        sift_down::<C>(segs, es, meps, ml, last, 0);
    } else {
        proof {
            assert(c0.remove(0) =~= Seq::<Seq<u8>>::empty());
            assert(c0.remove(0).to_multiset() == c0.to_multiset().remove(c0[0]));
        }
    }
    meta.length = last;
    proof {
        assert(meta.contents(segs@) == heap_view(segs@, es as int, meps as int, last as int));
        if last == 0 {
            assert(meta.contents(segs@) =~= Seq::<Seq<u8>>::empty());
        }
    }
    Ok(ret)
}

/// Returns the root — under the comparator, a least element — without
/// mutation.
pub fn peek(meta: &HeapMeta, segs: &Vec<Vec<u8>>) -> (r: Result<Vec<u8>, HeapError>)
    requires
        meta.valid(segs@),
    ensures
        ({
            let c = meta.contents(segs@);
            if meta.length == 0 {
                r == Err::<Vec<u8>, HeapError>(HeapError::RemoveFromEmpty)
            } else {
                r matches Ok(v) && v@ == c[0]
            }
        }),
{
    if meta.length == 0 {
        return Err(HeapError::RemoveFromEmpty);
    }
    let v = read_element(segs, meta.element_size, meta.max_elements_per_segment, meta.max_length, 0);
    Ok(v)
}

/// Creates the metadata record and storage segments for a heap of
/// `max_length` elements of `element_size` bytes each, filled with the
/// elements of `data` and heapified: every index from the last parent down
/// to the root is sifted down, producing a valid heap.
#[verifier::loop_isolation(false)]
pub fn initialize_heap<C: Comparator>(
    max_length: u64,
    element_size: u64,
    max_segment_bytes: u64,
    data: &Vec<u8>,
) -> (r: Result<(HeapMeta, Vec<Vec<u8>>), HeapError>)
    requires
        max_segment_bytes <= usize::MAX,
    ensures
        ({
            if max_length == 0 || element_size == 0 || element_size > max_segment_bytes {
                r == Err::<(HeapMeta, Vec<Vec<u8>>), HeapError>(HeapError::MalformedInput)
            } else if max_length * element_size > u64::MAX {
                r == Err::<(HeapMeta, Vec<Vec<u8>>), HeapError>(HeapError::Overflow)
            } else if data@.len() as int % element_size as int != 0 {
                r == Err::<(HeapMeta, Vec<Vec<u8>>), HeapError>(HeapError::MalformedInput)
            } else if data@.len() as int / element_size as int > max_length {
                r == Err::<(HeapMeta, Vec<Vec<u8>>), HeapError>(HeapError::InsufficientSpace)
            } else {
                &&& r matches Ok(p)
                &&& p.0.valid(p.1@)
                &&& p.0.max_length == max_length
                &&& p.0.element_size == element_size
                &&& p.0.max_bytes == max_length * element_size
                &&& p.0.length == data@.len() as int / element_size as int
                &&& p.0.max_elements_per_segment == max_segment_bytes as int / element_size as int
                &&& p.0.max_bytes_per_segment == p.0.max_elements_per_segment * p.0.element_size
                &&& heap_ordered::<C>(p.0.contents(p.1@))
                &&& p.0.contents(p.1@).to_multiset() == chunks(
                    data@,
                    element_size as int,
                ).to_multiset()
                &&& p.0.contents(p.1@) == spec_heapify::<C>(chunks(data@, element_size as int))
            }
        }),
{
    if max_length == 0 || element_size == 0 || element_size > max_segment_bytes {
        return Err(HeapError::MalformedInput);
    }
    if max_length > u64::MAX / element_size {
        proof {
            lemma_quotient_exceeds(max_length as int, element_size as int, u64::MAX as int);
        }
        return Err(HeapError::Overflow);
    }
    proof {
        lemma_quotient_fits(max_length as int, element_size as int, u64::MAX as int);
    }
    let es = element_size;
    let dlen = data.len() as u64;
    if dlen % es != 0 {
        return Err(HeapError::MalformedInput);
    }
    let n = dlen / es;
    if n > max_length {
        return Err(HeapError::InsufficientSpace);
    }
    let max_bytes = max_length * es;
    let meps = max_segment_bytes / es;
    proof {
        lemma_fundamental_div_mod(max_segment_bytes as int, es as int);
        lemma_mod_division_less_than_divisor(max_segment_bytes as int, es as int);
        lemma_mul_is_commutative(es as int, meps as int);
        lemma_div_non_zero(max_segment_bytes as int, es as int);
    }
    let mbps = meps * es;
    let mut segs = alloc_segments(es, meps, max_length);
    proof {
        lemma_fundamental_div_mod(dlen as int, es as int);
        lemma_mul_is_commutative(es as int, n as int);
        assert(dlen as int == n as int * es as int);
    }
    // write the initial elements in caller order
    let mut j: u64 = 0;
    while j < n
        invariant
            j <= n,
            segments_wf(segs@, es as int, meps as int, max_length as int),
            forall|t: int|
                0 <= t < j ==> element_at(segs@, es as int, meps as int, t) == chunk_at(
                    data@,
                    es as int,
                    t,
                ),
        decreases n - j,
    {
        proof {
            lemma_mul_inequality(j as int + 1, n as int, es as int);
            lemma_mul_is_distributive_add_other_way(es as int, j as int, 1);
            lemma_mul_nonnegative(j as int, es as int);
        }
        let doff = (j * es) as usize;
        write_element(&mut segs, es, meps, max_length, j, data, doff);
        j += 1;
    }
    proof {
        assert(heap_view(segs@, es as int, meps as int, n as int) =~= chunks(data@, es as int));
    }
    // bulk heapify: sift down every index from the last parent to the root
    if n > 0 {
        let ghost hvc = heap_view(segs@, es as int, meps as int, n as int);
        let half = n / 2;
        let mut i = half + 1;
        proof {
            assert forall|j: int|
                1 <= j < n && half as int + 1 <= (j - 1) / 2 implies heap_le::<C>(
                hvc[(j - 1) / 2],
                #[trigger] hvc[j],
            ) by {
                lemma_fundamental_div_mod(j - 1, 2);
                lemma_fundamental_div_mod(n as int, 2);
            }
        }
        while i > 0
            invariant
                i <= half + 1,
                segments_wf(segs@, es as int, meps as int, max_length as int),
                heap_view(segs@, es as int, meps as int, n as int).to_multiset()
                    == hvc.to_multiset(),
                heap_ordered_from::<C>(
                    heap_view(segs@, es as int, meps as int, n as int),
                    i as int,
                ),
                spec_heapify_from::<C>(
                    heap_view(segs@, es as int, meps as int, n as int),
                    i as int - 1,
                ) == spec_heapify_from::<C>(hvc, half as int),
            decreases i,
        {
            i -= 1;
            proof {
                lemma_fundamental_div_mod(n as int, 2);
            }
            let ghost hv_before = heap_view(segs@, es as int, meps as int, n as int);
            sift_down::<C>(&mut segs, es, meps, max_length, n, i);
            proof {
                assert(spec_heapify_from::<C>(hv_before, i as int) == spec_heapify_from::<C>(
                    spec_sift_down::<C>(hv_before, i as int),
                    i as int - 1,
                ));
            }
        }
        proof {
            let hv_done = heap_view(segs@, es as int, meps as int, n as int);
            assert(spec_heapify_from::<C>(hv_done, -1) == hv_done);
            assert(spec_heapify::<C>(chunks(data@, es as int)) == spec_heapify_from::<C>(
                hvc,
                half as int,
            ));
        }
    }
    let meta = HeapMeta {
        max_length,
        element_size: es,
        max_bytes,
        length: n,
        max_elements_per_segment: meps,
        max_bytes_per_segment: mbps,
    };
    proof {
        assert(meta.contents(segs@) == heap_view(segs@, es as int, meps as int, n as int));
        if n == 0 {
            assert(meta.contents(segs@) =~= chunks(data@, es as int));
        }
    }
    Ok((meta, segs))
}

/// Parameters of the `Initialize` operation.
#[derive(PartialEq, Eq, Debug)]
pub struct InitializeParams {
    pub start_length: u64,
    pub max_length: u64,
    pub element_size: u64,
}

impl InitializeParams {
    /// Decodes the 24-byte parameter payload: the fields as
    /// little-endian 64-bit words, in declaration order.
    pub fn from_bytes(bytes: &Vec<u8>) -> (r: Result<InitializeParams, HeapError>)
        ensures
            bytes@.len() != 24 ==> r == Err::<InitializeParams, HeapError>(HeapError::MalformedInput),
            bytes@.len() == 24 ==> (r matches Ok(p) && {
                &&& p.start_length == spec_u64_from_le_bytes(bytes@.subrange(0, 8))
                &&& p.max_length == spec_u64_from_le_bytes(bytes@.subrange(8, 16))
                &&& p.element_size == spec_u64_from_le_bytes(bytes@.subrange(16, 24))
            }),
    {
        if bytes.len() != 24 {
            return Err(HeapError::MalformedInput);
        }
        Ok(InitializeParams {
            start_length: read_u64_at(bytes, 0),
            max_length: read_u64_at(bytes, 8),
            element_size: read_u64_at(bytes, 16),
        })
    }
}

/// The operations a caller can request, in tag order.
pub enum Instruction {
    Initialize,
    Push,
    Pop,
    Peek,
    Delete,
}

impl Instruction {
    /// Decodes the leading operation tag byte.
    pub fn unpack(tag: &u8) -> (r: Result<Instruction, HeapError>)
        ensures
            r == match *tag {
                0u8 => Ok::<Instruction, HeapError>(Instruction::Initialize),
                1u8 => Ok::<Instruction, HeapError>(Instruction::Push),
                2u8 => Ok::<Instruction, HeapError>(Instruction::Pop),
                3u8 => Ok::<Instruction, HeapError>(Instruction::Peek),
                4u8 => Ok::<Instruction, HeapError>(Instruction::Delete),
                _ => Err::<Instruction, HeapError>(HeapError::MalformedInput),
            },
    {
        match *tag {
            0 => Ok(Instruction::Initialize),
            1 => Ok(Instruction::Push),
            2 => Ok(Instruction::Pop),
            3 => Ok(Instruction::Peek),
            4 => Ok(Instruction::Delete),
            _ => Err(HeapError::MalformedInput),
        }
    }
}

/// Capacity invariant law: in every valid state the element count lies
/// between zero and the fixed capacity, and the logical contents hold
/// exactly that many elements.  Every operation above ensures validity of
/// the state it leaves, and a failed operation leaves the metadata and every
/// segment byte bit-identical.
pub proof fn lemma_capacity_invariant(meta: HeapMeta, segs: Seq<Vec<u8>>)
    requires
        meta.valid(segs),
    ensures
        0 <= meta.length <= meta.max_length,
        meta.contents(segs).len() == meta.length,
{
}

/// Heap pop ordering law: the roots handed out by successive pops never
/// decrease under the comparator.  A pop of a well-ordered heap returns its
/// root and leaves a well-ordered heap holding the remaining elements; the
/// next root is one of those, and the root of a well-ordered heap orders no
/// later than any of its elements.
pub proof fn lemma_pop_ordering<C: Comparator>(c1: Seq<Seq<u8>>, c2: Seq<Seq<u8>>, es: int)
    requires
        heap_ordered::<C>(c1),
        uniform_len(c1, es),
        c1.len() > 0,
        c2.len() > 0,
        c2.to_multiset() == c1.to_multiset().remove(c1[0]),
    ensures
        heap_le::<C>(c1[0], c2[0]),
{
    broadcast use vstd::multiset::group_multiset_axioms;

    assert(c2.contains(c2[0]));
    assert(c2.to_multiset().count(c2[0]) > 0);
    assert(c1.to_multiset().count(c2[0]) > 0);
    assert(c1.contains(c2[0]));
    let i = choose|i: int| 0 <= i < c1.len() && c1[i] == c2[0];
    lemma_root_minimal::<C>(c1, es, i);
}

/// Segment-crossing equivalence for the heap: two valid heaps with the same
/// capacity and element size and equal logical contents — however
/// differently their storage is segmented — give every operation the same
/// outcome: the same root, the same failures, and the same contents after a
/// push or a pop, because every operation's contract above pins its result
/// to spec functions that read only the contents, the capacity and the
/// element size.
pub proof fn lemma_segment_crossing_equivalence<C: Comparator>(
    m1: HeapMeta,
    s1: Seq<Vec<u8>>,
    m2: HeapMeta,
    s2: Seq<Vec<u8>>,
    data: Seq<u8>,
)
    requires
        m1.valid(s1),
        m2.valid(s2),
        m1.max_length == m2.max_length,
        m1.element_size == m2.element_size,
        m1.contents(s1) == m2.contents(s2),
    ensures
        m1.length == m2.length,
        m1.length > 0 ==> m1.contents(s1)[0] == m2.contents(s2)[0],
        spec_push_result::<C>(m1.contents(s1), data) == spec_push_result::<C>(
            m2.contents(s2),
            data,
        ),
        m1.length > 0 ==> spec_pop_leaves::<C>(m1.contents(s1)) == spec_pop_leaves::<C>(
            m2.contents(s2),
        ),
{
    assert(m1.contents(s1).len() == m1.length);
    assert(m2.contents(s2).len() == m2.length);
}

} // verus!
