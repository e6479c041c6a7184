//! Circular double-ended queue over segmented storage.
//!
//! The deque's state is a metadata record (`DequeMeta`) and a sequence of
//! storage segments.  Logical index 0 is the front; the element at logical
//! index `i` lives at ring position `(start + i) % max_length`, and ring
//! positions map to segment bytes through the address translator.  Every
//! mutating operation validates its inputs before it writes anything, so a
//! failed call leaves the metadata and every segment byte untouched.

use vstd::prelude::*;
use vstd::arithmetic::div_mod::*;
use vstd::arithmetic::mul::*;

use vstd::bytes::{
    lemma_auto_spec_u64_to_from_le_bytes, spec_u64_from_le_bytes, spec_u64_to_le_bytes,
    u64_to_le_bytes,
};
use crate::translator::read_u64_at;
use crate::translator::{
    alloc_segments, chunk_at, chunks, element_at, lemma_quotient_exceeds, lemma_quotient_fits,
    lemma_ring_add_assoc, lemma_ring_distinct, read_element, ring_add, ring_pos, ring_sub,
    segments_wf, views, write_element,
};

verus! {

/// Failures an operation can report.  Errors are detected during validation,
/// before any mutation.
#[derive(Copy, Clone, PartialEq, Eq, Debug)]
pub enum DequeError {
    /// An insert would push `length` beyond `max_length`.
    InsufficientSpace,
    /// A pop asked for more elements than are present.
    PopFromEmpty,
    /// An arithmetic result does not fit the metadata's fixed-width fields.
    Overflow,
    /// A slice/get/remove range is not contained in `[0, length]`.
    IndexOutofBounds,
    /// A byte payload is not a whole number of elements.
    MalformedInput,
}

/// Per-collection metadata.  All fields are fixed at creation except `start`
/// and `length`.
#[derive(Copy, Clone, PartialEq, Eq, Debug)]
pub struct DequeMeta {
    pub max_length: u64,
    pub element_size: u64,
    pub max_bytes: u64,
    pub start: u64,
    pub length: u64,
    pub max_elements_per_segment: u64,
    pub max_bytes_per_segment: u64,
}

impl DequeMeta {
    /// Internal consistency of the metadata record alone.
    pub open spec fn wf(self) -> bool {
        &&& 1 <= self.element_size
        &&& 1 <= self.max_length
        &&& self.max_bytes == self.max_length * self.element_size
        &&& 1 <= self.max_elements_per_segment
        &&& self.max_bytes_per_segment == self.max_elements_per_segment * self.element_size
        &&& self.length <= self.max_length
        &&& self.start < self.max_length
    }

    /// The metadata together with storage segments sized to match it.
    pub open spec fn valid(self, segs: Seq<Vec<u8>>) -> bool {
        &&& self.wf()
        &&& segments_wf(
            segs,
            self.element_size as int,
            self.max_elements_per_segment as int,
            self.max_length as int,
        )
    }

    /// Ring position of logical index `i`.
    pub open spec fn ring(self, i: int) -> int {
        (self.start as int + i) % (self.max_length as int)
    }

    /// The logical contents: the byte blobs of the `length` elements, front
    /// first.
    pub open spec fn contents(self, segs: Seq<Vec<u8>>) -> Seq<Seq<u8>> {
        Seq::new(
            self.length as nat,
            |i: int|
                element_at(
                    segs,
                    self.element_size as int,
                    self.max_elements_per_segment as int,
                    self.ring(i),
                ),
        )
    }

    /// The fields fixed at creation agree.
    pub open spec fn same_geometry(self, other: DequeMeta) -> bool {
        &&& self.max_length == other.max_length
        &&& self.element_size == other.element_size
        &&& self.max_bytes == other.max_bytes
        &&& self.max_elements_per_segment == other.max_elements_per_segment
        &&& self.max_bytes_per_segment == other.max_bytes_per_segment
    }
}

impl DequeMeta {
    /// The fixed 56-byte stored layout: the fields as little-endian
    /// 64-bit words, in declaration order.
    pub open spec fn spec_bytes(self) -> Seq<u8> {
        spec_u64_to_le_bytes(self.max_length) + spec_u64_to_le_bytes(self.element_size) + spec_u64_to_le_bytes(self.max_bytes) + spec_u64_to_le_bytes(self.start) + spec_u64_to_le_bytes(self.length) + spec_u64_to_le_bytes(self.max_elements_per_segment) + spec_u64_to_le_bytes(self.max_bytes_per_segment)
    }

    /// Encodes the metadata record into its fixed 56-byte layout.
    pub fn to_bytes(&self) -> (r: Vec<u8>)
        ensures
            r@ == self.spec_bytes(),
            r@.len() == 56,
    {
        proof {
            lemma_auto_spec_u64_to_from_le_bytes();
        }
        let mut r = u64_to_le_bytes(self.max_length);
        let mut f = u64_to_le_bytes(self.element_size);
        r.append(&mut f);
        let mut f = u64_to_le_bytes(self.max_bytes);
        r.append(&mut f);
        let mut f = u64_to_le_bytes(self.start);
        r.append(&mut f);
        let mut f = u64_to_le_bytes(self.length);
        r.append(&mut f);
        let mut f = u64_to_le_bytes(self.max_elements_per_segment);
        r.append(&mut f);
        let mut f = u64_to_le_bytes(self.max_bytes_per_segment);
        r.append(&mut f);
        proof {
            assert(r@ =~= self.spec_bytes());
        }
        r
    }

    /// Decodes a metadata record from its fixed 56-byte layout; any
    /// other length is malformed.
    pub fn from_bytes(bytes: &Vec<u8>) -> (r: Result<DequeMeta, DequeError>)
        ensures
            bytes@.len() != 56 ==> r == Err::<DequeMeta, DequeError>(DequeError::MalformedInput),
            bytes@.len() == 56 ==> (r matches Ok(m) && m.spec_bytes() == bytes@),
    {
        if bytes.len() != 56 {
            return Err(DequeError::MalformedInput);
        }
        let m = DequeMeta {
            max_length: read_u64_at(bytes, 0),
            element_size: read_u64_at(bytes, 8),
            max_bytes: read_u64_at(bytes, 16),
            start: read_u64_at(bytes, 24),
            length: read_u64_at(bytes, 32),
            max_elements_per_segment: read_u64_at(bytes, 40),
            max_bytes_per_segment: read_u64_at(bytes, 48),
        };
        proof {
            lemma_auto_spec_u64_to_from_le_bytes();
            assert(m.spec_bytes() =~= bytes@);
        }
        Ok(m)
    }
}

/// The stored layout determines the record: equal encodings mean equal
/// metadata, so decoding always restores the encoded record bit-exactly.
pub proof fn lemma_meta_bytes_injective(m1: DequeMeta, m2: DequeMeta)
    requires
        m1.spec_bytes() == m2.spec_bytes(),
    ensures
        m1 == m2,
{
    lemma_auto_spec_u64_to_from_le_bytes();
    assert(m1.spec_bytes().subrange(0, 8) =~= spec_u64_to_le_bytes(m1.max_length));
    assert(m2.spec_bytes().subrange(0, 8) =~= spec_u64_to_le_bytes(m2.max_length));
    assert(m1.spec_bytes().subrange(8, 16) =~= spec_u64_to_le_bytes(m1.element_size));
    assert(m2.spec_bytes().subrange(8, 16) =~= spec_u64_to_le_bytes(m2.element_size));
    assert(m1.spec_bytes().subrange(16, 24) =~= spec_u64_to_le_bytes(m1.max_bytes));
    assert(m2.spec_bytes().subrange(16, 24) =~= spec_u64_to_le_bytes(m2.max_bytes));
    assert(m1.spec_bytes().subrange(24, 32) =~= spec_u64_to_le_bytes(m1.start));
    assert(m2.spec_bytes().subrange(24, 32) =~= spec_u64_to_le_bytes(m2.start));
    assert(m1.spec_bytes().subrange(32, 40) =~= spec_u64_to_le_bytes(m1.length));
    assert(m2.spec_bytes().subrange(32, 40) =~= spec_u64_to_le_bytes(m2.length));
    assert(m1.spec_bytes().subrange(40, 48) =~= spec_u64_to_le_bytes(m1.max_elements_per_segment));
    assert(m2.spec_bytes().subrange(40, 48) =~= spec_u64_to_le_bytes(m2.max_elements_per_segment));
    assert(m1.spec_bytes().subrange(48, 56) =~= spec_u64_to_le_bytes(m1.max_bytes_per_segment));
    assert(m2.spec_bytes().subrange(48, 56) =~= spec_u64_to_le_bytes(m2.max_bytes_per_segment));
}

/// Outcome of pushing `data` at the front of a deque with logical contents
/// `c`: the new contents, or the error.  The outcome depends only on the
/// contents, the capacity and the element size — never on how the storage is
/// segmented.
pub open spec fn spec_push_front(c: Seq<Seq<u8>>, ml: int, es: int, data: Seq<u8>) -> Result<
    Seq<Seq<u8>>,
    DequeError,
> {
    if data.len() as int % es != 0 {
        Err(DequeError::MalformedInput)
    } else if c.len() + data.len() as int / es > ml {
        Err(DequeError::InsufficientSpace)
    } else {
        Ok(chunks(data, es) + c)
    }
}

/// Outcome of pushing `data` at the back: the new contents, or the error.
pub open spec fn spec_push_back(c: Seq<Seq<u8>>, ml: int, es: int, data: Seq<u8>) -> Result<
    Seq<Seq<u8>>,
    DequeError,
> {
    if data.len() as int % es != 0 {
        Err(DequeError::MalformedInput)
    } else if c.len() + data.len() as int / es > ml {
        Err(DequeError::InsufficientSpace)
    } else {
        Ok(c + chunks(data, es))
    }
}

/// Outcome of popping `n` elements from the front: the popped elements in
/// front-to-back order and the remaining contents, or the error.
pub open spec fn spec_pop_front(c: Seq<Seq<u8>>, n: int) -> Result<
    (Seq<Seq<u8>>, Seq<Seq<u8>>),
    DequeError,
> {
    if c.len() < n {
        Err(DequeError::PopFromEmpty)
    } else {
        Ok((c.subrange(0, n), c.subrange(n, c.len() as int)))
    }
}

/// Outcome of popping `n` elements from the back: the popped elements in
/// storage order (oldest of them first) and the remaining contents.
pub open spec fn spec_pop_back(c: Seq<Seq<u8>>, n: int) -> Result<
    (Seq<Seq<u8>>, Seq<Seq<u8>>),
    DequeError,
> {
    if c.len() < n {
        Err(DequeError::PopFromEmpty)
    } else {
        Ok((c.subrange(c.len() - n, c.len() as int), c.subrange(0, c.len() - n)))
    }
}

/// Outcome of reading the logical range `[i, j)` without mutation.
pub open spec fn spec_slice(c: Seq<Seq<u8>>, i: int, j: int) -> Result<Seq<Seq<u8>>, DequeError> {
    if i > j || j > c.len() {
        Err(DequeError::IndexOutofBounds)
    } else {
        Ok(c.subrange(i, j))
    }
}

/// Outcome of removing the logical range `[i, j)`: the removed elements and
/// the compacted remaining contents.
pub open spec fn spec_remove_slice(c: Seq<Seq<u8>>, i: int, j: int) -> Result<
    (Seq<Seq<u8>>, Seq<Seq<u8>>),
    DequeError,
> {
    if i > j || j > c.len() {
        Err(DequeError::IndexOutofBounds)
    } else {
        Ok((c.subrange(i, j), c.subrange(0, i) + c.subrange(j, c.len() as int)))
    }
}

/// Inserts whole elements at the front of the deque, first payload element
/// becoming the new logical front, or fails without effect.
#[verifier::loop_isolation(false)]
pub fn push_front(meta: &mut DequeMeta, segs: &mut Vec<Vec<u8>>, data: &Vec<u8>) -> (r: Result<
    (),
    DequeError,
>)
    requires
        old(meta).valid(old(segs)@),
    ensures
        final(meta).valid(final(segs)@),
        final(meta).same_geometry(*old(meta)),
        ({
            let es = old(meta).element_size as int;
            let k = data@.len() as int / es;
            let c = old(meta).contents(old(segs)@);
            match spec_push_front(c, old(meta).max_length as int, es, data@) {
                Err(e) => r == Err::<(), DequeError>(e) && *final(meta) == *old(meta) && final(segs)@ == old(segs)@,
                Ok(c2) => {
                    &&& r == Ok::<(), DequeError>(())
                    &&& final(meta).start == (old(meta).start + old(meta).max_length - k) % (old(meta).max_length as int)
                    &&& final(meta).length == old(meta).length + k
                    &&& final(meta).contents(final(segs)@) == c2
                },
            }
        }),
{
    let es = meta.element_size;
    let meps = meta.max_elements_per_segment;
    let ml = meta.max_length;
    let dlen = data.len() as u64;
    if dlen % es != 0 {
        return Err(DequeError::MalformedInput);
    }
    let k = dlen / es;
    if k > ml - meta.length {
        return Err(DequeError::InsufficientSpace);
    }
    proof {
        lemma_fundamental_div_mod(dlen as int, es as int);
        lemma_mul_is_commutative(es as int, k as int);
        assert(dlen as int == k as int * es as int);
    }
    let new_start = ring_sub(meta.start, k, ml);
    let mut j: u64 = 0;
    while j < k
        invariant
            j <= k,
            segments_wf(segs@, es as int, meps as int, ml as int),
            forall|t: int|
                0 <= t < j ==> element_at(
                    segs@,
                    es as int,
                    meps as int,
                    ring_pos(new_start as int, t, ml as int),
                ) == chunk_at(data@, es as int, t),
            forall|i: int|
                0 <= i < old(meta).length ==> element_at(
                    segs@,
                    es as int,
                    meps as int,
                    old(meta).ring(i),
                ) == element_at(old(segs)@, es as int, meps as int, old(meta).ring(i)),
        decreases k - j,
    {
        let q = ring_add(new_start, j, ml);
        proof {
            lemma_mul_inequality(j as int + 1, k as int, es as int);
            lemma_mul_is_distributive_add_other_way(es as int, j as int, 1);
            lemma_mul_nonnegative(j as int, es as int);
        }
        let doff = (j * es) as usize;
        write_element(segs, es, meps, ml, q, data, doff);
        proof {
            let m = ml as int;
            let s0 = old(meta).start as int;
            let len0 = old(meta).length as int;
            // q is the ring position of offset (ml - k + j) from the old start
            lemma_ring_add_assoc(s0, m - k as int, j as int, m);
            assert forall|t: int|
                0 <= t < j implies element_at(
                segs@,
                es as int,
                meps as int,
                ring_pos(new_start as int, t, m),
            ) == chunk_at(data@, es as int, t) by {
                lemma_ring_add_assoc(s0, m - k as int, t, m);
                lemma_ring_distinct(s0, m - k as int + t, m - k as int + j as int, m);
            }
            assert forall|i: int|
                0 <= i < len0 implies element_at(segs@, es as int, meps as int, old(meta).ring(i))
                == element_at(old(segs)@, es as int, meps as int, old(meta).ring(i)) by {
                lemma_ring_distinct(s0, i, m - k as int + j as int, m);
            }
        }
        j += 1;
    }
    let ghost pre: DequeMeta = *meta;
    meta.start = new_start;
    meta.length = meta.length + k;
    proof {
        let m = ml as int;
        let s0 = pre.start as int;
        let len0 = pre.length as int;
        let ki = k as int;
        let esi = es as int;
        let result = chunks(data@, esi) + pre.contents(old(segs)@);
        assert forall|i: int| 0 <= i < meta.length implies meta.contents(segs@)[i] == result[i] by {
            if i < ki {
                lemma_ring_add_assoc(s0, m - ki, i, m);
                assert(meta.ring(i) == ring_pos(new_start as int, i, m));
            } else {
                // ring position of offset (ml - k + i) from the old start wraps
                // to the position of old offset (i - k)
                lemma_ring_add_assoc(s0, m - ki, i, m);
                lemma_mod_add_multiples_vanish(s0 + i - ki, m);
                assert(meta.ring(i) == pre.ring(i - ki));
            }
        }
        assert(meta.contents(segs@) =~= result);
    }
    Ok(())
}

/// Appends whole elements at the back of the deque, or fails without effect.
#[verifier::loop_isolation(false)]
pub fn push_back(meta: &mut DequeMeta, segs: &mut Vec<Vec<u8>>, data: &Vec<u8>) -> (r: Result<
    (),
    DequeError,
>)
    requires
        old(meta).valid(old(segs)@),
    ensures
        final(meta).valid(final(segs)@),
        final(meta).same_geometry(*old(meta)),
        ({
            let es = old(meta).element_size as int;
            let k = data@.len() as int / es;
            let c = old(meta).contents(old(segs)@);
            match spec_push_back(c, old(meta).max_length as int, es, data@) {
                Err(e) => r == Err::<(), DequeError>(e) && *final(meta) == *old(meta) && final(segs)@ == old(segs)@,
                Ok(c2) => {
                    &&& r == Ok::<(), DequeError>(())
                    &&& final(meta).start == old(meta).start
                    &&& final(meta).length == old(meta).length + k
                    &&& final(meta).contents(final(segs)@) == c2
                },
            }
        }),
{
    let es = meta.element_size;
    let meps = meta.max_elements_per_segment;
    let ml = meta.max_length;
    let dlen = data.len() as u64;
    if dlen % es != 0 {
        return Err(DequeError::MalformedInput);
    }
    let k = dlen / es;
    if k > ml - meta.length {
        return Err(DequeError::InsufficientSpace);
    }
    proof {
        lemma_fundamental_div_mod(dlen as int, es as int);
        lemma_mul_is_commutative(es as int, k as int);
        assert(dlen as int == k as int * es as int);
    }
    let base = ring_add(meta.start, meta.length, ml);
    let mut j: u64 = 0;
    while j < k
        invariant
            j <= k,
            segments_wf(segs@, es as int, meps as int, ml as int),
            forall|t: int|
                0 <= t < j ==> element_at(
                    segs@,
                    es as int,
                    meps as int,
                    ring_pos(base as int, t, ml as int),
                ) == chunk_at(data@, es as int, t),
            forall|i: int|
                0 <= i < old(meta).length ==> element_at(
                    segs@,
                    es as int,
                    meps as int,
                    old(meta).ring(i),
                ) == element_at(old(segs)@, es as int, meps as int, old(meta).ring(i)),
        decreases k - j,
    {
        let q = ring_add(base, j, ml);
        proof {
            lemma_mul_inequality(j as int + 1, k as int, es as int);
            lemma_mul_is_distributive_add_other_way(es as int, j as int, 1);
            lemma_mul_nonnegative(j as int, es as int);
        }
        let doff = (j * es) as usize;
        write_element(segs, es, meps, ml, q, data, doff);
        proof {
            let m = ml as int;
            let s0 = old(meta).start as int;
            let len0 = old(meta).length as int;
            lemma_ring_add_assoc(s0, len0, j as int, m);
            assert forall|t: int|
                0 <= t < j implies element_at(
                segs@,
                es as int,
                meps as int,
                ring_pos(base as int, t, m),
            ) == chunk_at(data@, es as int, t) by {
                lemma_ring_add_assoc(s0, len0, t, m);
                lemma_ring_distinct(s0, len0 + t, len0 + j as int, m);
            }
            assert forall|i: int|
                0 <= i < len0 implies element_at(segs@, es as int, meps as int, old(meta).ring(i))
                == element_at(old(segs)@, es as int, meps as int, old(meta).ring(i)) by {
                lemma_ring_distinct(s0, i, len0 + j as int, m);
            }
        }
        j += 1;
    }
    let ghost pre: DequeMeta = *meta;
    meta.length = meta.length + k;
    proof {
        let m = ml as int;
        let s0 = pre.start as int;
        let len0 = pre.length as int;
        let ki = k as int;
        let esi = es as int;
        let result = pre.contents(old(segs)@) + chunks(data@, esi);
        assert forall|i: int| 0 <= i < meta.length implies meta.contents(segs@)[i] == result[i] by {
            if i >= len0 {
                lemma_ring_add_assoc(s0, len0, i - len0, m);
                assert(meta.ring(i) == ring_pos(base as int, i - len0, m));
            }
        }
        assert(meta.contents(segs@) =~= result);
    }
    Ok(())
}

/// Removes `num_elements` elements from the front and returns them in
/// front-to-back order, or fails without effect.
#[verifier::loop_isolation(false)]
pub fn pop_slice_front(meta: &mut DequeMeta, segs: &mut Vec<Vec<u8>>, num_elements: u64) -> (r:
    Result<Vec<Vec<u8>>, DequeError>)
    requires
        old(meta).valid(old(segs)@),
    ensures
        final(meta).valid(final(segs)@),
        final(meta).same_geometry(*old(meta)),
        final(segs)@ == old(segs)@,
        ({
            let c = old(meta).contents(old(segs)@);
            match spec_pop_front(c, num_elements as int) {
                Err(e) => r == Err::<Vec<Vec<u8>>, DequeError>(e) && *final(meta) == *old(meta),
                Ok(pr) => {
                    &&& r matches Ok(v) && views(v@) == pr.0
                    &&& final(meta).start == ring_pos(
                        old(meta).start as int,
                        num_elements as int,
                        old(meta).max_length as int,
                    )
                    &&& final(meta).length == old(meta).length - num_elements
                    &&& final(meta).contents(final(segs)@) == pr.1
                },
            }
        }),
{
    let es = meta.element_size;
    let meps = meta.max_elements_per_segment;
    let ml = meta.max_length;
    let n = num_elements;
    if meta.length < n {
        return Err(DequeError::PopFromEmpty);
    }
    let ghost c0 = meta.contents(segs@);
    let mut ret: Vec<Vec<u8>> = Vec::new();
    let mut t: u64 = 0;
    while t < n
        invariant
            t <= n,
            ret@.len() == t,
            forall|u: int| 0 <= u < t ==> #[trigger] ret@[u]@ == c0[u],
        decreases n - t,
    {
        let q = ring_add(meta.start, t, ml);
        let e = read_element(segs, es, meps, ml, q);
        ret.push(e);
        t += 1;
    }
    let ghost pre: DequeMeta = *meta;
    meta.start = ring_add(meta.start, n, ml);
    meta.length = meta.length - n;
    proof {
        let m = ml as int;
        assert forall|i: int| 0 <= i < meta.length implies meta.contents(segs@)[i] == c0[n + i] by {
            lemma_ring_add_assoc(pre.start as int, n as int, i, m);
            assert(meta.ring(i) == pre.ring(n + i));
        }
        assert(meta.contents(segs@) =~= c0.subrange(n as int, c0.len() as int));
        assert(views(ret@) =~= c0.subrange(0, n as int));
    }
    Ok(ret)
}

/// Removes the trailing `num_elements` elements and returns them in storage
/// order (the oldest of them first), or fails without effect.
#[verifier::loop_isolation(false)]
pub fn pop_slice_back(meta: &mut DequeMeta, segs: &mut Vec<Vec<u8>>, num_elements: u64) -> (r:
    Result<Vec<Vec<u8>>, DequeError>)
    requires
        old(meta).valid(old(segs)@),
    ensures
        final(meta).valid(final(segs)@),
        final(meta).same_geometry(*old(meta)),
        final(segs)@ == old(segs)@,
        ({
            let c = old(meta).contents(old(segs)@);
            match spec_pop_back(c, num_elements as int) {
                Err(e) => r == Err::<Vec<Vec<u8>>, DequeError>(e) && *final(meta) == *old(meta),
                Ok(pr) => {
                    &&& r matches Ok(v) && views(v@) == pr.0
                    &&& final(meta).start == old(meta).start
                    &&& final(meta).length == old(meta).length - num_elements
                    &&& final(meta).contents(final(segs)@) == pr.1
                },
            }
        }),
{
    let es = meta.element_size;
    let meps = meta.max_elements_per_segment;
    let ml = meta.max_length;
    let n = num_elements;
    if meta.length < n {
        return Err(DequeError::PopFromEmpty);
    }
    let ghost c0 = meta.contents(segs@);
    let new_length = meta.length - n;
    let mut ret: Vec<Vec<u8>> = Vec::new();
    let mut t: u64 = 0;
    while t < n
        invariant
            t <= n,
            ret@.len() == t,
            forall|u: int| 0 <= u < t ==> #[trigger] ret@[u]@ == c0[new_length + u],
        decreases n - t,
    {
        let q = ring_add(meta.start, new_length + t, ml);
        let e = read_element(segs, es, meps, ml, q);
        ret.push(e);
        t += 1;
    }
    meta.length = new_length;
    proof {
        assert(meta.contents(segs@) =~= c0.subrange(0, new_length as int));
        assert(views(ret@) =~= c0.subrange(new_length as int, c0.len() as int));
    }
    Ok(ret)
}

/// Removes and returns the front element.
pub fn pop_front(meta: &mut DequeMeta, segs: &mut Vec<Vec<u8>>) -> (r: Result<Vec<u8>, DequeError>)
    requires
        old(meta).valid(old(segs)@),
    ensures
        final(meta).valid(final(segs)@),
        final(meta).same_geometry(*old(meta)),
        final(segs)@ == old(segs)@,
        ({
            let c = old(meta).contents(old(segs)@);
            match spec_pop_front(c, 1) {
                Err(e) => r == Err::<Vec<u8>, DequeError>(e) && *final(meta) == *old(meta),
                Ok(pr) => {
                    &&& r matches Ok(v) && v@ == c[0]
                    &&& final(meta).start == ring_pos(
                        old(meta).start as int,
                        1,
                        old(meta).max_length as int,
                    )
                    &&& final(meta).length == old(meta).length - 1
                    &&& final(meta).contents(final(segs)@) == pr.1
                },
            }
        }),
{
    let mut v = pop_slice_front(meta, segs, 1)?;
    proof {
        assert(v@.len() == views(v@).len());
        assert(v@[0]@ == views(v@)[0]);
    }
    match v.pop() {
        Some(e) => Ok(e),
        None => Err(DequeError::PopFromEmpty),
    }
}

/// Removes and returns the back element.
pub fn pop_back(meta: &mut DequeMeta, segs: &mut Vec<Vec<u8>>) -> (r: Result<Vec<u8>, DequeError>)
    requires
        old(meta).valid(old(segs)@),
    ensures
        final(meta).valid(final(segs)@),
        final(meta).same_geometry(*old(meta)),
        final(segs)@ == old(segs)@,
        ({
            let c = old(meta).contents(old(segs)@);
            match spec_pop_back(c, 1) {
                Err(e) => r == Err::<Vec<u8>, DequeError>(e) && *final(meta) == *old(meta),
                Ok(pr) => {
                    &&& r matches Ok(v) && v@ == c[c.len() - 1]
                    &&& final(meta).start == old(meta).start
                    &&& final(meta).length == old(meta).length - 1
                    &&& final(meta).contents(final(segs)@) == pr.1
                },
            }
        }),
{
    let mut v = pop_slice_back(meta, segs, 1)?;
    proof {
        assert(v@.len() == views(v@).len());
        assert(v@[0]@ == views(v@)[0]);
    }
    match v.pop() {
        Some(e) => Ok(e),
        None => Err(DequeError::PopFromEmpty),
    }
}

/// Reads the logical range `[start, end)` without mutation.
#[verifier::loop_isolation(false)]
pub fn slice(meta: &DequeMeta, segs: &Vec<Vec<u8>>, start: u64, end: u64) -> (r: Result<
    Vec<Vec<u8>>,
    DequeError,
>)
    requires
        meta.valid(segs@),
    ensures
        ({
            let c = meta.contents(segs@);
            match spec_slice(c, start as int, end as int) {
                Err(e) => r == Err::<Vec<Vec<u8>>, DequeError>(e),
                Ok(sl) => r matches Ok(v) && views(v@) == sl,
            }
        }),
{
    if start > end || end > meta.length {
        return Err(DequeError::IndexOutofBounds);
    }
    let es = meta.element_size;
    let meps = meta.max_elements_per_segment;
    let ml = meta.max_length;
    let ghost c0 = meta.contents(segs@);
    let n = end - start;
    let mut ret: Vec<Vec<u8>> = Vec::new();
    let mut t: u64 = 0;
    while t < n
        invariant
            t <= n,
            ret@.len() == t,
            forall|u: int| 0 <= u < t ==> #[trigger] ret@[u]@ == c0[start + u],
        decreases n - t,
    {
        let q = ring_add(meta.start, start + t, ml);
        let e = read_element(segs, es, meps, ml, q);
        ret.push(e);
        t += 1;
    }
    proof {
        assert(views(ret@) =~= c0.subrange(start as int, end as int));
    }
    Ok(ret)
}

/// Reads the element at logical index `index` without mutation.
pub fn get(meta: &DequeMeta, segs: &Vec<Vec<u8>>, index: u64) -> (r: Result<Vec<u8>, DequeError>)
    requires
        meta.valid(segs@),
    ensures
        ({
            let c = meta.contents(segs@);
            if index >= meta.length {
                r == Err::<Vec<u8>, DequeError>(DequeError::IndexOutofBounds)
            } else {
                r matches Ok(v) && v@ == c[index as int]
            }
        }),
{
    if index >= meta.length {
        return Err(DequeError::IndexOutofBounds);
    }
    let mut v = slice(meta, segs, index, index + 1)?;
    proof {
        assert(v@.len() == views(v@).len());
        assert(v@[0]@ == views(v@)[0]);
    }
    match v.pop() {
        Some(e) => Ok(e),
        None => Err(DequeError::IndexOutofBounds),
    }
}

/// Removes the logical range `[start, end)` and returns it; the elements
/// after the range shift forward to close the gap.  Fails without effect.
#[verifier::loop_isolation(false)]
pub fn remove_slice(meta: &mut DequeMeta, segs: &mut Vec<Vec<u8>>, start: u64, end: u64) -> (r:
    Result<Vec<Vec<u8>>, DequeError>)
    requires
        old(meta).valid(old(segs)@),
    ensures
        final(meta).valid(final(segs)@),
        final(meta).same_geometry(*old(meta)),
        ({
            let c = old(meta).contents(old(segs)@);
            match spec_remove_slice(c, start as int, end as int) {
                Err(e) => r == Err::<Vec<Vec<u8>>, DequeError>(e) && *final(meta) == *old(meta)
                    && final(segs)@ == old(segs)@,
                Ok(pr) => {
                    &&& r matches Ok(v) && views(v@) == pr.0
                    &&& final(meta).start == old(meta).start
                    &&& final(meta).length == old(meta).length - (end - start)
                    &&& final(meta).contents(final(segs)@) == pr.1
                },
            }
        }),
{
    if start > end || end > meta.length {
        return Err(DequeError::IndexOutofBounds);
    }
    if start == end {
        proof {
            let c0 = meta.contents(segs@);
            assert(views(Seq::<Vec<u8>>::empty()) =~= c0.subrange(start as int, end as int));
            assert(c0 =~= c0.subrange(0, start as int) + c0.subrange(end as int, c0.len() as int));
        }
        let ret: Vec<Vec<u8>> = Vec::new();
        return Ok(ret);
    }
    let es = meta.element_size;
    let meps = meta.max_elements_per_segment;
    let ml = meta.max_length;
    let len = meta.length;
    let ghost c0 = meta.contents(segs@);
    let ghost m = ml as int;
    let ghost s0 = meta.start as int;
    let n = end - start;
    // read out the removed range first
    let mut ret: Vec<Vec<u8>> = Vec::new();
    let mut t: u64 = 0;
    while t < n
        invariant
            t <= n,
            ret@.len() == t,
            forall|u: int| 0 <= u < t ==> #[trigger] ret@[u]@ == c0[start + u],
        decreases n - t,
    {
        let q = ring_add(meta.start, start + t, ml);
        let e = read_element(segs, es, meps, ml, q);
        ret.push(e);
        t += 1;
    }
    // shift the elements after the range forward, one element at a time, a
    // source cursor at `end` and a destination cursor at `start`
    let shift = len - end;
    let ghost dbase = s0 + start as int;
    let mut t: u64 = 0;
    while t < shift
        invariant
            t <= shift,
            segments_wf(segs@, es as int, meps as int, ml as int),
            forall|u: int|
                0 <= u < t ==> element_at(segs@, es as int, meps as int, ring_pos(dbase, u, m))
                    == c0[end + u],
            forall|o: int|
                0 <= o < len && (o < start || start + t <= o) ==> element_at(
                    segs@,
                    es as int,
                    meps as int,
                    old(meta).ring(o),
                ) == element_at(old(segs)@, es as int, meps as int, old(meta).ring(o)),
        decreases shift - t,
    {
        let q_src = ring_add(meta.start, end + t, ml);
        let q_dst = ring_add(meta.start, start + t, ml);
        let e = read_element(segs, es, meps, ml, q_src);
        proof {
            assert(e@.subrange(0, es as int) =~= e@);
            assert(q_src == old(meta).ring(end + t));
            assert(q_dst == old(meta).ring(start + t));
            lemma_ring_distinct(s0, start as int + t, end as int + t, m);
        }
        write_element(segs, es, meps, ml, q_dst, &e, 0);
        proof {
            assert forall|u: int|
                0 <= u < t + 1 implies element_at(
                segs@,
                es as int,
                meps as int,
                ring_pos(dbase, u, m),
            ) == c0[end + u] by {
                assert(ring_pos(dbase, u, m) == old(meta).ring(start + u));
                if u < t {
                    lemma_ring_distinct(s0, start as int + u, start as int + t, m);
                }
            }
            assert forall|o: int|
                0 <= o < len && (o < start || start + t + 1 <= o) implies element_at(
                segs@,
                es as int,
                meps as int,
                old(meta).ring(o),
            ) == element_at(old(segs)@, es as int, meps as int, old(meta).ring(o)) by {
                lemma_ring_distinct(s0, o, start as int + t, m);
            }
        }
        t += 1;
    }
    meta.length = len - n;
    proof {
        let result = c0.subrange(0, start as int) + c0.subrange(end as int, c0.len() as int);
        assert forall|i: int| 0 <= i < meta.length implies meta.contents(segs@)[i] == result[i] by {
            if i < start {
                assert(element_at(segs@, es as int, meps as int, old(meta).ring(i))
                    == element_at(old(segs)@, es as int, meps as int, old(meta).ring(i)));
            } else {
                assert(ring_pos(dbase, i - start, m) == old(meta).ring(i));
                assert(element_at(segs@, es as int, meps as int, ring_pos(dbase, i - start, m))
                    == c0[end + (i - start)]);
            }
        }
        assert(meta.contents(segs@) =~= result);
        assert(views(ret@) =~= c0.subrange(start as int, end as int));
    }
    Ok(ret)
}

/// Removes and returns the element at logical index `index`.
pub fn remove(meta: &mut DequeMeta, segs: &mut Vec<Vec<u8>>, index: u64) -> (r: Result<
    Vec<u8>,
    DequeError,
>)
    requires
        old(meta).valid(old(segs)@),
    ensures
        final(meta).valid(final(segs)@),
        final(meta).same_geometry(*old(meta)),
        ({
            let c = old(meta).contents(old(segs)@);
            if index >= old(meta).length {
                &&& r == Err::<Vec<u8>, DequeError>(DequeError::IndexOutofBounds)
                &&& *final(meta) == *old(meta)
                &&& final(segs)@ == old(segs)@
            } else {
                &&& r matches Ok(v) && v@ == c[index as int]
                &&& final(meta).start == old(meta).start
                &&& final(meta).length == old(meta).length - 1
                &&& final(meta).contents(final(segs)@) == c.subrange(0, index as int) + c.subrange(
                    index as int + 1,
                    c.len() as int,
                )
            }
        }),
{
    if index >= meta.length {
        return Err(DequeError::IndexOutofBounds);
    }
    let mut v = remove_slice(meta, segs, index, index + 1)?;
    proof {
        assert(v@.len() == views(v@).len());
        assert(v@[0]@ == views(v@)[0]);
    }
    match v.pop() {
        Some(e) => Ok(e),
        None => Err(DequeError::IndexOutofBounds),
    }
}

/// Creates the metadata record and zero-filled storage segments for a deque
/// of `max_length` elements of `element_size` bytes each, where one segment
/// holds at most `max_segment_bytes` bytes.
pub fn initialize_deque(max_length: u64, element_size: u64, max_segment_bytes: u64) -> (r: Result<
    (DequeMeta, Vec<Vec<u8>>),
    DequeError,
>)
    requires
        max_segment_bytes <= usize::MAX,
    ensures
        ({
            if max_length == 0 || element_size == 0 || element_size > max_segment_bytes {
                r == Err::<(DequeMeta, Vec<Vec<u8>>), DequeError>(DequeError::MalformedInput)
            } else if max_length * element_size > u64::MAX {
                r == Err::<(DequeMeta, Vec<Vec<u8>>), DequeError>(DequeError::Overflow)
            } else {
                &&& r matches Ok(p)
                &&& p.0.valid(p.1@)
                &&& p.0.max_length == max_length
                &&& p.0.element_size == element_size
                &&& p.0.max_bytes == max_length * element_size
                &&& p.0.start == 0
                &&& p.0.length == 0
                &&& p.0.max_elements_per_segment == max_segment_bytes as int / element_size as int
                &&& p.0.max_bytes_per_segment == p.0.max_elements_per_segment * p.0.element_size
                &&& p.0.contents(p.1@) == Seq::<Seq<u8>>::empty()
            }
        }),
{
    if max_length == 0 || element_size == 0 || element_size > max_segment_bytes {
        return Err(DequeError::MalformedInput);
    }
    if max_length > u64::MAX / element_size {
        proof {
            lemma_quotient_exceeds(max_length as int, element_size as int, u64::MAX as int);
        }
        return Err(DequeError::Overflow);
    }
    proof {
        lemma_quotient_fits(max_length as int, element_size as int, u64::MAX as int);
    }
    let max_bytes = max_length * element_size;
    let meps = max_segment_bytes / element_size;
    proof {
        lemma_fundamental_div_mod(max_segment_bytes as int, element_size as int);
        lemma_mod_division_less_than_divisor(max_segment_bytes as int, element_size as int);
        lemma_mul_is_commutative(element_size as int, meps as int);
        lemma_div_non_zero(max_segment_bytes as int, element_size as int);
    }
    let mbps = meps * element_size;
    let segs = alloc_segments(element_size, meps, max_length);
    let meta = DequeMeta {
        max_length,
        element_size,
        max_bytes,
        start: 0,
        length: 0,
        max_elements_per_segment: meps,
        max_bytes_per_segment: mbps,
    };
    proof {
        assert(meta.contents(segs@) =~= Seq::<Seq<u8>>::empty());
    }
    Ok((meta, segs))
}

/// Parameters of the `Initialize` operation.
#[derive(PartialEq, Eq, Debug)]
pub struct InitializeParams {
    pub max_length: u64,
    pub element_size: u64,
}

impl InitializeParams {
    /// Decodes the 16-byte parameter payload: the fields as
    /// little-endian 64-bit words, in declaration order.
    pub fn from_bytes(bytes: &Vec<u8>) -> (r: Result<InitializeParams, DequeError>)
        ensures
            bytes@.len() != 16 ==> r == Err::<InitializeParams, DequeError>(DequeError::MalformedInput),
            bytes@.len() == 16 ==> (r matches Ok(p) && {
                &&& p.max_length == spec_u64_from_le_bytes(bytes@.subrange(0, 8))
                &&& p.element_size == spec_u64_from_le_bytes(bytes@.subrange(8, 16))
            }),
    {
        if bytes.len() != 16 {
            return Err(DequeError::MalformedInput);
        }
        Ok(InitializeParams {
            max_length: read_u64_at(bytes, 0),
            element_size: read_u64_at(bytes, 8),
        })
    }
}

/// Parameters of the `PopFront`/`PopBack` operations.
#[derive(PartialEq, Eq, Debug)]
pub struct PopParams {
    pub num_elements: u64,
}

impl PopParams {
    /// Decodes the 8-byte parameter payload: the fields as
    /// little-endian 64-bit words, in declaration order.
    pub fn from_bytes(bytes: &Vec<u8>) -> (r: Result<PopParams, DequeError>)
        ensures
            bytes@.len() != 8 ==> r == Err::<PopParams, DequeError>(DequeError::MalformedInput),
            bytes@.len() == 8 ==> (r matches Ok(p) && {
                &&& p.num_elements == spec_u64_from_le_bytes(bytes@.subrange(0, 8))
            }),
    {
        if bytes.len() != 8 {
            return Err(DequeError::MalformedInput);
        }
        Ok(PopParams {
            num_elements: read_u64_at(bytes, 0),
        })
    }
}

/// Parameters of the `Get`/`Remove` operations.
#[derive(PartialEq, Eq, Debug)]
pub struct GetParams {
    pub start: u64,
    pub end: u64,
}

impl GetParams {
    /// Decodes the 16-byte parameter payload: the fields as
    /// little-endian 64-bit words, in declaration order.
    pub fn from_bytes(bytes: &Vec<u8>) -> (r: Result<GetParams, DequeError>)
        ensures
            bytes@.len() != 16 ==> r == Err::<GetParams, DequeError>(DequeError::MalformedInput),
            bytes@.len() == 16 ==> (r matches Ok(p) && {
                &&& p.start == spec_u64_from_le_bytes(bytes@.subrange(0, 8))
                &&& p.end == spec_u64_from_le_bytes(bytes@.subrange(8, 16))
            }),
    {
        if bytes.len() != 16 {
            return Err(DequeError::MalformedInput);
        }
        Ok(GetParams {
            start: read_u64_at(bytes, 0),
            end: read_u64_at(bytes, 8),
        })
    }
}

/// The operations a caller can request, in tag order.
pub enum Instruction {
    Initialize,
    PushFront,
    PushBack,
    PopFront,
    PopBack,
    Get,
    Remove,
    Delete,
}

impl Instruction {
    /// Decodes the leading operation tag byte.
    pub fn unpack(tag: &u8) -> (r: Result<Instruction, DequeError>)
        ensures
            r == match *tag {
                0u8 => Ok::<Instruction, DequeError>(Instruction::Initialize),
                1u8 => Ok::<Instruction, DequeError>(Instruction::PushFront),
                2u8 => Ok::<Instruction, DequeError>(Instruction::PushBack),
                3u8 => Ok::<Instruction, DequeError>(Instruction::PopFront),
                4u8 => Ok::<Instruction, DequeError>(Instruction::PopBack),
                5u8 => Ok::<Instruction, DequeError>(Instruction::Get),
                6u8 => Ok::<Instruction, DequeError>(Instruction::Remove),
                7u8 => Ok::<Instruction, DequeError>(Instruction::Delete),
                _ => Err::<Instruction, DequeError>(DequeError::MalformedInput),
            },
    {
        match *tag {
            0 => Ok(Instruction::Initialize),
            1 => Ok(Instruction::PushFront),
            2 => Ok(Instruction::PushBack),
            3 => Ok(Instruction::PopFront),
            4 => Ok(Instruction::PopBack),
            5 => Ok(Instruction::Get),
            6 => Ok(Instruction::Remove),
            7 => Ok(Instruction::Delete),
            _ => Err(DequeError::MalformedInput),
        }
    }
}

/// Capacity invariant law: in every valid state the element count lies
/// between zero and the fixed capacity, and the logical contents hold
/// exactly that many elements.  Every operation above ensures validity of
/// the state it leaves, and a failed operation leaves the metadata and every
/// segment byte bit-identical.
pub proof fn lemma_capacity_invariant(meta: DequeMeta, segs: Seq<Vec<u8>>)
    requires
        meta.valid(segs),
    ensures
        0 <= meta.length <= meta.max_length,
        meta.contents(segs).len() == meta.length,
{
}

/// FIFO law: appending `xs` at the back of contents `c` and then draining
/// from the front returns first the older elements `c`, in order, and then
/// the pushed elements `xs`, in push order.  With `push_back`'s contract
/// (new contents are `c + chunks`) and `pop_front`'s (a pop takes a prefix
/// and leaves the suffix), elements always emerge in the order pushed.
pub proof fn lemma_fifo_order(c: Seq<Seq<u8>>, xs: Seq<Seq<u8>>)
    ensures
        (c + xs).subrange(0, c.len() as int) == c,
        (c + xs).subrange(c.len() as int, (c + xs).len() as int) == xs,
{
    assert((c + xs).subrange(0, c.len() as int) =~= c);
    assert((c + xs).subrange(c.len() as int, (c + xs).len() as int) =~= xs);
}

/// LIFO-at-each-end law: pushing `xs` at the front and immediately popping
/// `xs.len()` elements from the front returns exactly `xs` and restores the
/// previous contents.
pub proof fn lemma_push_front_pop_front(c: Seq<Seq<u8>>, xs: Seq<Seq<u8>>)
    ensures
        (xs + c).subrange(0, xs.len() as int) == xs,
        (xs + c).subrange(xs.len() as int, (xs + c).len() as int) == c,
{
    assert((xs + c).subrange(0, xs.len() as int) =~= xs);
    assert((xs + c).subrange(xs.len() as int, (xs + c).len() as int) =~= c);
}

/// Segment-crossing equivalence: two valid deques with the same capacity and
/// element size and equal logical contents — however differently their
/// storage is segmented — give every operation the same outcome.  Each
/// operation's contract above pins its result and new contents to one of the
/// `spec_*` outcome functions, which read only the contents, the capacity
/// and the element size.
pub proof fn lemma_segment_crossing_equivalence(
    m1: DequeMeta,
    s1: Seq<Vec<u8>>,
    m2: DequeMeta,
    s2: Seq<Vec<u8>>,
    data: Seq<u8>,
    n: int,
    i: int,
    j: int,
)
    requires
        m1.valid(s1),
        m2.valid(s2),
        m1.max_length == m2.max_length,
        m1.element_size == m2.element_size,
        m1.contents(s1) == m2.contents(s2),
    ensures
        m1.length == m2.length,
        spec_push_front(m1.contents(s1), m1.max_length as int, m1.element_size as int, data)
            == spec_push_front(m2.contents(s2), m2.max_length as int, m2.element_size as int, data),
        spec_push_back(m1.contents(s1), m1.max_length as int, m1.element_size as int, data)
            == spec_push_back(m2.contents(s2), m2.max_length as int, m2.element_size as int, data),
        spec_pop_front(m1.contents(s1), n) == spec_pop_front(m2.contents(s2), n),
        spec_pop_back(m1.contents(s1), n) == spec_pop_back(m2.contents(s2), n),
        spec_slice(m1.contents(s1), i, j) == spec_slice(m2.contents(s2), i, j),
        spec_remove_slice(m1.contents(s1), i, j) == spec_remove_slice(m2.contents(s2), i, j),
{
    assert(m1.contents(s1).len() == m1.length);
    assert(m2.contents(s2).len() == m2.length);
}

} // verus!
