//! Append-only linear collection over segmented storage.
//!
//! The vector is the non-wrapping case of the segmented layout: the element
//! at logical index `i` is stored at position `i`, and positions map to
//! segment bytes through the address translator.  Every mutating operation
//! validates its inputs before it writes anything, so a failed call leaves
//! the metadata and every segment byte untouched.

use vstd::prelude::*;
use vstd::arithmetic::div_mod::*;
use vstd::arithmetic::mul::*;

use vstd::bytes::{
    lemma_auto_spec_u64_to_from_le_bytes, spec_u64_from_le_bytes, spec_u64_to_le_bytes,
    u64_to_le_bytes,
};
use crate::translator::read_u64_at;
use crate::translator::{
    alloc_segments, chunk_at, chunks, element_at, lemma_quotient_exceeds, lemma_quotient_fits,
    read_element, segments_wf, views, write_element,
};

verus! {

/// Failures an operation can report.  Errors are detected during validation,
/// before any mutation.
#[derive(Copy, Clone, PartialEq, Eq, Debug)]
pub enum VectorError {
    /// An insert would push `length` beyond `max_length`.
    InsufficientSpace,
    /// A pop asked for more elements than are present.
    PopFromEmpty,
    /// An arithmetic result does not fit the metadata's fixed-width fields.
    Overflow,
    /// A slice/get/remove range is not contained in `[0, length]`.
    IndexOutofBounds,
    /// A byte payload is not a whole number of elements.
    MalformedInput,
}

/// Per-collection metadata.  All fields are fixed at creation except
/// `length`.
#[derive(Copy, Clone, PartialEq, Eq, Debug)]
pub struct VectorMeta {
    pub max_length: u64,
    pub element_size: u64,
    pub length: u64,
    pub max_elements_per_segment: u64,
    pub max_bytes_per_segment: u64,
}

impl VectorMeta {
    /// Internal consistency of the metadata record alone.
    pub open spec fn wf(self) -> bool {
        &&& 1 <= self.element_size
        &&& 1 <= self.max_length
        &&& 1 <= self.max_elements_per_segment
        &&& self.max_bytes_per_segment == self.max_elements_per_segment * self.element_size
        &&& self.length <= self.max_length
    }

    /// The metadata together with storage segments sized to match it.
    pub open spec fn valid(self, segs: Seq<Vec<u8>>) -> bool {
        &&& self.wf()
        &&& segments_wf(
            segs,
            self.element_size as int,
            self.max_elements_per_segment as int,
            self.max_length as int,
        )
    }

    /// The logical contents: the byte blobs of the `length` elements, in
    /// index order.
    pub open spec fn contents(self, segs: Seq<Vec<u8>>) -> Seq<Seq<u8>> {
        Seq::new(
            self.length as nat,
            |i: int|
                element_at(
                    segs,
                    self.element_size as int,
                    self.max_elements_per_segment as int,
                    i,
                ),
        )
    }

    /// The fields fixed at creation agree.
    pub open spec fn same_geometry(self, other: VectorMeta) -> bool {
        &&& self.max_length == other.max_length
        &&& self.element_size == other.element_size
        &&& self.max_elements_per_segment == other.max_elements_per_segment
        &&& self.max_bytes_per_segment == other.max_bytes_per_segment
    }
}

impl VectorMeta {
    /// The fixed 40-byte stored layout: the fields as little-endian
    /// 64-bit words, in declaration order.
    pub open spec fn spec_bytes(self) -> Seq<u8> {
        spec_u64_to_le_bytes(self.max_length) + spec_u64_to_le_bytes(self.element_size) + spec_u64_to_le_bytes(self.length) + spec_u64_to_le_bytes(self.max_elements_per_segment) + spec_u64_to_le_bytes(self.max_bytes_per_segment)
    }

    /// Encodes the metadata record into its fixed 40-byte layout.
    pub fn to_bytes(&self) -> (r: Vec<u8>)
        ensures
            r@ == self.spec_bytes(),
            r@.len() == 40,
    {
        proof {
            lemma_auto_spec_u64_to_from_le_bytes();
        }
        let mut r = u64_to_le_bytes(self.max_length);
        let mut f = u64_to_le_bytes(self.element_size);
        r.append(&mut f);
        let mut f = u64_to_le_bytes(self.length);
        r.append(&mut f);
        let mut f = u64_to_le_bytes(self.max_elements_per_segment);
        r.append(&mut f);
        let mut f = u64_to_le_bytes(self.max_bytes_per_segment);
        r.append(&mut f);
        proof {
            assert(r@ =~= self.spec_bytes());
        }
        r
    }

    /// Decodes a metadata record from its fixed 40-byte layout; any
    /// other length is malformed.
    pub fn from_bytes(bytes: &Vec<u8>) -> (r: Result<VectorMeta, VectorError>)
        ensures
            bytes@.len() != 40 ==> r == Err::<VectorMeta, VectorError>(VectorError::MalformedInput),
            bytes@.len() == 40 ==> (r matches Ok(m) && m.spec_bytes() == bytes@),
    {
        if bytes.len() != 40 {
            return Err(VectorError::MalformedInput);
        }
        let m = VectorMeta {
            max_length: read_u64_at(bytes, 0),
            element_size: read_u64_at(bytes, 8),
            length: read_u64_at(bytes, 16),
            max_elements_per_segment: read_u64_at(bytes, 24),
            max_bytes_per_segment: read_u64_at(bytes, 32),
        };
        proof {
            lemma_auto_spec_u64_to_from_le_bytes();
            assert(m.spec_bytes() =~= bytes@);
        }
        Ok(m)
    }
}

/// The stored layout determines the record: equal encodings mean equal
/// metadata, so decoding always restores the encoded record bit-exactly.
pub proof fn lemma_meta_bytes_injective(m1: VectorMeta, m2: VectorMeta)
    requires
        m1.spec_bytes() == m2.spec_bytes(),
    ensures
        m1 == m2,
{
    lemma_auto_spec_u64_to_from_le_bytes();
    assert(m1.spec_bytes().subrange(0, 8) =~= spec_u64_to_le_bytes(m1.max_length));
    assert(m2.spec_bytes().subrange(0, 8) =~= spec_u64_to_le_bytes(m2.max_length));
    assert(m1.spec_bytes().subrange(8, 16) =~= spec_u64_to_le_bytes(m1.element_size));
    assert(m2.spec_bytes().subrange(8, 16) =~= spec_u64_to_le_bytes(m2.element_size));
    assert(m1.spec_bytes().subrange(16, 24) =~= spec_u64_to_le_bytes(m1.length));
    assert(m2.spec_bytes().subrange(16, 24) =~= spec_u64_to_le_bytes(m2.length));
    assert(m1.spec_bytes().subrange(24, 32) =~= spec_u64_to_le_bytes(m1.max_elements_per_segment));
    assert(m2.spec_bytes().subrange(24, 32) =~= spec_u64_to_le_bytes(m2.max_elements_per_segment));
    assert(m1.spec_bytes().subrange(32, 40) =~= spec_u64_to_le_bytes(m1.max_bytes_per_segment));
    assert(m2.spec_bytes().subrange(32, 40) =~= spec_u64_to_le_bytes(m2.max_bytes_per_segment));
}

/// Outcome of appending `data` at the tail: the new contents, or the error.
/// The outcome depends only on the contents, the capacity and the element
/// size — never on how the storage is segmented.
pub open spec fn spec_push(c: Seq<Seq<u8>>, ml: int, es: int, data: Seq<u8>) -> Result<
    Seq<Seq<u8>>,
    VectorError,
> {
    if data.len() as int % es != 0 {
        Err(VectorError::MalformedInput)
    } else if c.len() + data.len() as int / es > ml {
        Err(VectorError::InsufficientSpace)
    } else {
        Ok(c + chunks(data, es))
    }
}

/// Outcome of popping the trailing `n` elements: the popped elements in
/// storage order (oldest of them first) and the remaining contents.
pub open spec fn spec_pop(c: Seq<Seq<u8>>, n: int) -> Result<
    (Seq<Seq<u8>>, Seq<Seq<u8>>),
    VectorError,
> {
    if c.len() < n {
        Err(VectorError::PopFromEmpty)
    } else {
        Ok((c.subrange(c.len() - n, c.len() as int), c.subrange(0, c.len() - n)))
    }
}

/// Outcome of reading the logical range `[i, j)` without mutation.
pub open spec fn spec_slice(c: Seq<Seq<u8>>, i: int, j: int) -> Result<Seq<Seq<u8>>, VectorError> {
    if i > j || j > c.len() {
        Err(VectorError::IndexOutofBounds)
    } else {
        Ok(c.subrange(i, j))
    }
}

/// Outcome of removing the logical range `[i, j)`: the removed elements and
/// the compacted remaining contents.
pub open spec fn spec_remove_slice(c: Seq<Seq<u8>>, i: int, j: int) -> Result<
    (Seq<Seq<u8>>, Seq<Seq<u8>>),
    VectorError,
> {
    if i > j || j > c.len() {
        Err(VectorError::IndexOutofBounds)
    } else {
        Ok((c.subrange(i, j), c.subrange(0, i) + c.subrange(j, c.len() as int)))
    }
}

/// Appends whole elements at the tail, or fails without effect.
#[verifier::loop_isolation(false)]
pub fn push(meta: &mut VectorMeta, segs: &mut Vec<Vec<u8>>, data: &Vec<u8>) -> (r: Result<
    (),
    VectorError,
>)
    requires
        old(meta).valid(old(segs)@),
    ensures
        final(meta).valid(final(segs)@),
        final(meta).same_geometry(*old(meta)),
        ({
            let es = old(meta).element_size as int;
            let k = data@.len() as int / es;
            let c = old(meta).contents(old(segs)@);
            match spec_push(c, old(meta).max_length as int, es, data@) {
                Err(e) => r == Err::<(), VectorError>(e) && *final(meta) == *old(meta) && final(segs)@ == old(segs)@,
                Ok(c2) => {
                    &&& r == Ok::<(), VectorError>(())
                    &&& final(meta).length == old(meta).length + k
                    &&& final(meta).contents(final(segs)@) == c2
                },
            }
        }),
{
    let es = meta.element_size;
    let meps = meta.max_elements_per_segment;
    let ml = meta.max_length;
    let len0 = meta.length;
    let dlen = data.len() as u64;
    if dlen % es != 0 {
        return Err(VectorError::MalformedInput);
    }
    let k = dlen / es;
    if k > ml - meta.length {
        return Err(VectorError::InsufficientSpace);
    }
    proof {
        lemma_fundamental_div_mod(dlen as int, es as int);
        lemma_mul_is_commutative(es as int, k as int);
        assert(dlen as int == k as int * es as int);
    }
    let mut j: u64 = 0;
    while j < k
        invariant
            j <= k,
            segments_wf(segs@, es as int, meps as int, ml as int),
            forall|t: int|
                0 <= t < j ==> element_at(segs@, es as int, meps as int, len0 + t) == chunk_at(
                    data@,
                    es as int,
                    t,
                ),
            forall|i: int|
                0 <= i < len0 ==> #[trigger] element_at(segs@, es as int, meps as int, i)
                    == element_at(old(segs)@, es as int, meps as int, i),
        decreases k - j,
    {
        proof {
            lemma_mul_inequality(j as int + 1, k as int, es as int);
            lemma_mul_is_distributive_add_other_way(es as int, j as int, 1);
            lemma_mul_nonnegative(j as int, es as int);
        }
        let q = len0 + j;
        let doff = (j * es) as usize;
        write_element(segs, es, meps, ml, q, data, doff);
        j += 1;
    }
    meta.length = meta.length + k;
    proof {
        let result = old(meta).contents(old(segs)@) + chunks(data@, es as int);
        assert(meta.contents(segs@) =~= result);
    }
    Ok(())
}

/// Removes the trailing `num_elements` elements and returns them in storage
/// order (the oldest of them first), or fails without effect.
#[verifier::loop_isolation(false)]
pub fn pop_slice(meta: &mut VectorMeta, segs: &mut Vec<Vec<u8>>, num_elements: u64) -> (r: Result<
    Vec<Vec<u8>>,
    VectorError,
>)
    requires
        old(meta).valid(old(segs)@),
    ensures
        final(meta).valid(final(segs)@),
        final(meta).same_geometry(*old(meta)),
        final(segs)@ == old(segs)@,
        ({
            let c = old(meta).contents(old(segs)@);
            match spec_pop(c, num_elements as int) {
                Err(e) => r == Err::<Vec<Vec<u8>>, VectorError>(e) && *final(meta) == *old(meta),
                Ok(pr) => {
                    &&& r matches Ok(v) && views(v@) == pr.0
                    &&& final(meta).length == old(meta).length - num_elements
                    &&& final(meta).contents(final(segs)@) == pr.1
                },
            }
        }),
{
    let es = meta.element_size;
    let meps = meta.max_elements_per_segment;
    let ml = meta.max_length;
    let n = num_elements;
    if meta.length < n {
        return Err(VectorError::PopFromEmpty);
    }
    let ghost c0 = meta.contents(segs@);
    let new_length = meta.length - n;
    let mut ret: Vec<Vec<u8>> = Vec::new();
    let mut t: u64 = 0;
    while t < n
        invariant
            t <= n,
            ret@.len() == t,
            forall|u: int| 0 <= u < t ==> #[trigger] ret@[u]@ == c0[new_length + u],
        decreases n - t,
    {
        let e = read_element(segs, es, meps, ml, new_length + t);
        ret.push(e);
        t += 1;
    }
    meta.length = new_length;
    proof {
        assert(meta.contents(segs@) =~= c0.subrange(0, new_length as int));
        assert(views(ret@) =~= c0.subrange(new_length as int, c0.len() as int));
    }
    Ok(ret)
}

/// Removes and returns the tail element.
pub fn pop(meta: &mut VectorMeta, segs: &mut Vec<Vec<u8>>) -> (r: Result<Vec<u8>, VectorError>)
    requires
        old(meta).valid(old(segs)@),
    ensures
        final(meta).valid(final(segs)@),
        final(meta).same_geometry(*old(meta)),
        final(segs)@ == old(segs)@,
        ({
            let c = old(meta).contents(old(segs)@);
            match spec_pop(c, 1) {
                Err(e) => r == Err::<Vec<u8>, VectorError>(e) && *final(meta) == *old(meta),
                Ok(pr) => {
                    &&& r matches Ok(v) && v@ == c[c.len() - 1]
                    &&& final(meta).length == old(meta).length - 1
                    &&& final(meta).contents(final(segs)@) == pr.1
                },
            }
        }),
{
    let mut v = pop_slice(meta, segs, 1)?;
    proof {
        assert(v@.len() == views(v@).len());
        assert(v@[0]@ == views(v@)[0]);
    }
    match v.pop() {
        Some(e) => Ok(e),
        None => Err(VectorError::PopFromEmpty),
    }
}

/// Reads the logical range `[start, end)` without mutation.
#[verifier::loop_isolation(false)]
pub fn slice(meta: &VectorMeta, segs: &Vec<Vec<u8>>, start: u64, end: u64) -> (r: Result<
    Vec<Vec<u8>>,
    VectorError,
>)
    requires
        meta.valid(segs@),
    ensures
        ({
            let c = meta.contents(segs@);
            match spec_slice(c, start as int, end as int) {
                Err(e) => r == Err::<Vec<Vec<u8>>, VectorError>(e),
                Ok(sl) => r matches Ok(v) && views(v@) == sl,
            }
        }),
{
    if start > end || end > meta.length {
        return Err(VectorError::IndexOutofBounds);
    }
    let es = meta.element_size;
    let meps = meta.max_elements_per_segment;
    let ml = meta.max_length;
    let ghost c0 = meta.contents(segs@);
    let n = end - start;
    let mut ret: Vec<Vec<u8>> = Vec::new();
    let mut t: u64 = 0;
    while t < n
        invariant
            t <= n,
            ret@.len() == t,
            forall|u: int| 0 <= u < t ==> #[trigger] ret@[u]@ == c0[start + u],
        decreases n - t,
    {
        let e = read_element(segs, es, meps, ml, start + t);
        ret.push(e);
        t += 1;
    }
    proof {
        assert(views(ret@) =~= c0.subrange(start as int, end as int));
    }
    Ok(ret)
}

/// Reads the element at logical index `index` without mutation.
pub fn get(meta: &VectorMeta, segs: &Vec<Vec<u8>>, index: u64) -> (r: Result<Vec<u8>, VectorError>)
    requires
        meta.valid(segs@),
    ensures
        ({
            let c = meta.contents(segs@);
            if index >= meta.length {
                r == Err::<Vec<u8>, VectorError>(VectorError::IndexOutofBounds)
            } else {
                r matches Ok(v) && v@ == c[index as int]
            }
        }),
{
    if index >= meta.length {
        return Err(VectorError::IndexOutofBounds);
    }
    let mut v = slice(meta, segs, index, index + 1)?;
    proof {
        assert(v@.len() == views(v@).len());
        assert(v@[0]@ == views(v@)[0]);
    }
    match v.pop() {
        Some(e) => Ok(e),
        None => Err(VectorError::IndexOutofBounds),
    }
}

/// Removes the logical range `[start, end)` and returns it; the elements
/// after the range shift forward to close the gap.  Fails without effect.
#[verifier::loop_isolation(false)]
pub fn remove_slice(meta: &mut VectorMeta, segs: &mut Vec<Vec<u8>>, start: u64, end: u64) -> (r:
    Result<Vec<Vec<u8>>, VectorError>)
    requires
        old(meta).valid(old(segs)@),
    ensures
        final(meta).valid(final(segs)@),
        final(meta).same_geometry(*old(meta)),
        ({
            let c = old(meta).contents(old(segs)@);
            match spec_remove_slice(c, start as int, end as int) {
                Err(e) => r == Err::<Vec<Vec<u8>>, VectorError>(e) && *final(meta) == *old(meta)
                    && final(segs)@ == old(segs)@,
                Ok(pr) => {
                    &&& r matches Ok(v) && views(v@) == pr.0
                    &&& final(meta).length == old(meta).length - (end - start)
                    &&& final(meta).contents(final(segs)@) == pr.1
                },
            }
        }),
{
    if start > end || end > meta.length {
        return Err(VectorError::IndexOutofBounds);
    }
    let es = meta.element_size;
    let meps = meta.max_elements_per_segment;
    let ml = meta.max_length;
    let len = meta.length;
    let ghost c0 = meta.contents(segs@);
    let n = end - start;
    // read out the removed range first
    let mut ret: Vec<Vec<u8>> = Vec::new();
    let mut t: u64 = 0;
    while t < n
        invariant
            t <= n,
            ret@.len() == t,
            forall|u: int| 0 <= u < t ==> #[trigger] ret@[u]@ == c0[start + u],
        decreases n - t,
    {
        let e = read_element(segs, es, meps, ml, start + t);
        ret.push(e);
        t += 1;
    }
    // shift the elements after the range forward, a source cursor at `end`
    // and a destination cursor at `start`
    let shift = len - end;
    let mut t: u64 = 0;
    while t < shift
        invariant
            t <= shift,
            segments_wf(segs@, es as int, meps as int, ml as int),
            forall|o: int|
                0 <= o < len ==> #[trigger] element_at(segs@, es as int, meps as int, o) == (
                if start <= o < start + t {
                    c0[o + n]
                } else {
                    c0[o]
                }),
        decreases shift - t,
    {
        let e = read_element(segs, es, meps, ml, end + t);
        proof {
            assert(e@.subrange(0, es as int) =~= e@);
        }
        write_element(segs, es, meps, ml, start + t, &e, 0);
        t += 1;
    }
    meta.length = len - n;
    proof {
        let result = c0.subrange(0, start as int) + c0.subrange(end as int, c0.len() as int);
        assert(meta.contents(segs@) =~= result);
        assert(views(ret@) =~= c0.subrange(start as int, end as int));
    }
    Ok(ret)
}

/// Removes and returns the element at logical index `index`.
pub fn remove(meta: &mut VectorMeta, segs: &mut Vec<Vec<u8>>, index: u64) -> (r: Result<
    Vec<u8>,
    VectorError,
>)
    requires
        old(meta).valid(old(segs)@),
    ensures
        final(meta).valid(final(segs)@),
        final(meta).same_geometry(*old(meta)),
        ({
            let c = old(meta).contents(old(segs)@);
            if index >= old(meta).length {
                &&& r == Err::<Vec<u8>, VectorError>(VectorError::IndexOutofBounds)
                &&& *final(meta) == *old(meta)
                &&& final(segs)@ == old(segs)@
            } else {
                &&& r matches Ok(v) && v@ == c[index as int]
                &&& final(meta).length == old(meta).length - 1
                &&& final(meta).contents(final(segs)@) == c.subrange(0, index as int) + c.subrange(
                    index as int + 1,
                    c.len() as int,
                )
            }
        }),
{
    if index >= meta.length {
        return Err(VectorError::IndexOutofBounds);
    }
    let mut v = remove_slice(meta, segs, index, index + 1)?;
    proof {
        assert(v@.len() == views(v@).len());
        assert(v@[0]@ == views(v@)[0]);
    }
    match v.pop() {
        Some(e) => Ok(e),
        None => Err(VectorError::IndexOutofBounds),
    }
}

/// Creates the metadata record and zero-filled storage segments for a vector
/// of `max_length` elements of `element_size` bytes each, where one segment
/// holds at most `max_segment_bytes` bytes.
pub fn initialize_vector(max_length: u64, element_size: u64, max_segment_bytes: u64) -> (r: Result<
    (VectorMeta, Vec<Vec<u8>>),
    VectorError,
>)
    requires
        max_segment_bytes <= usize::MAX,
    ensures
        ({
            if max_length == 0 || element_size == 0 || element_size > max_segment_bytes {
                r == Err::<(VectorMeta, Vec<Vec<u8>>), VectorError>(VectorError::MalformedInput)
            } else if max_length * element_size > u64::MAX {
                r == Err::<(VectorMeta, Vec<Vec<u8>>), VectorError>(VectorError::Overflow)
            } else {
                &&& r matches Ok(p)
                &&& p.0.valid(p.1@)
                &&& p.0.max_length == max_length
                &&& p.0.element_size == element_size
                &&& p.0.length == 0
                &&& p.0.max_elements_per_segment == max_segment_bytes as int / element_size as int
                &&& p.0.max_bytes_per_segment == p.0.max_elements_per_segment * p.0.element_size
                &&& p.0.contents(p.1@) == Seq::<Seq<u8>>::empty()
            }
        }),
{
    if max_length == 0 || element_size == 0 || element_size > max_segment_bytes {
        return Err(VectorError::MalformedInput);
    }
    if max_length > u64::MAX / element_size {
        proof {
            lemma_quotient_exceeds(max_length as int, element_size as int, u64::MAX as int);
        }
        return Err(VectorError::Overflow);
    }
    proof {
        lemma_quotient_fits(max_length as int, element_size as int, u64::MAX as int);
    }
    let meps = max_segment_bytes / element_size;
    proof {
        lemma_fundamental_div_mod(max_segment_bytes as int, element_size as int);
        lemma_mod_division_less_than_divisor(max_segment_bytes as int, element_size as int);
        lemma_mul_is_commutative(element_size as int, meps as int);
        lemma_div_non_zero(max_segment_bytes as int, element_size as int);
    }
    let mbps = meps * element_size;
    let segs = alloc_segments(element_size, meps, max_length);
    let meta = VectorMeta {
        max_length,
        element_size,
        length: 0,
        max_elements_per_segment: meps,
        max_bytes_per_segment: mbps,
    };
    proof {
        assert(meta.contents(segs@) =~= Seq::<Seq<u8>>::empty());
    }
    Ok((meta, segs))
}

/// Parameters of the `Initialize` operation.
#[derive(PartialEq, Eq, Debug)]
pub struct InitializeParams {
    pub max_length: u64,
    pub element_size: u64,
}

impl InitializeParams {
    /// Decodes the 16-byte parameter payload: the fields as
    /// little-endian 64-bit words, in declaration order.
    pub fn from_bytes(bytes: &Vec<u8>) -> (r: Result<InitializeParams, VectorError>)
        ensures
            bytes@.len() != 16 ==> r == Err::<InitializeParams, VectorError>(VectorError::MalformedInput),
            bytes@.len() == 16 ==> (r matches Ok(p) && {
                &&& p.max_length == spec_u64_from_le_bytes(bytes@.subrange(0, 8))
                &&& p.element_size == spec_u64_from_le_bytes(bytes@.subrange(8, 16))
            }),
    {
        if bytes.len() != 16 {
            return Err(VectorError::MalformedInput);
        }
        Ok(InitializeParams {
            max_length: read_u64_at(bytes, 0),
            element_size: read_u64_at(bytes, 8),
        })
    }
}

/// Parameters of the `Pop` operation.
#[derive(PartialEq, Eq, Debug)]
pub struct PopParams {
    pub num_elements: u64,
}

impl PopParams {
    /// Decodes the 8-byte parameter payload: the fields as
    /// little-endian 64-bit words, in declaration order.
    pub fn from_bytes(bytes: &Vec<u8>) -> (r: Result<PopParams, VectorError>)
        ensures
            bytes@.len() != 8 ==> r == Err::<PopParams, VectorError>(VectorError::MalformedInput),
            bytes@.len() == 8 ==> (r matches Ok(p) && {
                &&& p.num_elements == spec_u64_from_le_bytes(bytes@.subrange(0, 8))
            }),
    {
        if bytes.len() != 8 {
            return Err(VectorError::MalformedInput);
        }
        Ok(PopParams {
            num_elements: read_u64_at(bytes, 0),
        })
    }
}

/// Parameters of the `Get`/`Remove` operations.
#[derive(PartialEq, Eq, Debug)]
pub struct GetParams {
    pub start: u64,
    pub end: u64,
}

impl GetParams {
    /// Decodes the 16-byte parameter payload: the fields as
    /// little-endian 64-bit words, in declaration order.
    pub fn from_bytes(bytes: &Vec<u8>) -> (r: Result<GetParams, VectorError>)
        ensures
            bytes@.len() != 16 ==> r == Err::<GetParams, VectorError>(VectorError::MalformedInput),
            bytes@.len() == 16 ==> (r matches Ok(p) && {
                &&& p.start == spec_u64_from_le_bytes(bytes@.subrange(0, 8))
                &&& p.end == spec_u64_from_le_bytes(bytes@.subrange(8, 16))
            }),
    {
        if bytes.len() != 16 {
            return Err(VectorError::MalformedInput);
        }
        Ok(GetParams {
            start: read_u64_at(bytes, 0),
            end: read_u64_at(bytes, 8),
        })
    }
}

/// The operations a caller can request, in tag order.
pub enum Instruction {
    Initialize,
    Push,
    Pop,
    Get,
    Remove,
    Delete,
}

impl Instruction {
    /// Decodes the leading operation tag byte.
    pub fn unpack(tag: &u8) -> (r: Result<Instruction, VectorError>)
        ensures
            r == match *tag {
                0u8 => Ok::<Instruction, VectorError>(Instruction::Initialize),
                1u8 => Ok::<Instruction, VectorError>(Instruction::Push),
                2u8 => Ok::<Instruction, VectorError>(Instruction::Pop),
                3u8 => Ok::<Instruction, VectorError>(Instruction::Get),
                4u8 => Ok::<Instruction, VectorError>(Instruction::Remove),
                5u8 => Ok::<Instruction, VectorError>(Instruction::Delete),
                _ => Err::<Instruction, VectorError>(VectorError::MalformedInput),
            },
    {
        match *tag {
            0 => Ok(Instruction::Initialize),
            1 => Ok(Instruction::Push),
            2 => Ok(Instruction::Pop),
            3 => Ok(Instruction::Get),
            4 => Ok(Instruction::Remove),
            5 => Ok(Instruction::Delete),
            _ => Err(VectorError::MalformedInput),
        }
    }
}

/// Capacity invariant law: in every valid state the element count lies
/// between zero and the fixed capacity, and the logical contents hold
/// exactly that many elements.  Every operation above ensures validity of
/// the state it leaves, and a failed operation leaves the metadata and every
/// segment byte bit-identical.
pub proof fn lemma_capacity_invariant(meta: VectorMeta, segs: Seq<Vec<u8>>)
    requires
        meta.valid(segs),
    ensures
        0 <= meta.length <= meta.max_length,
        meta.contents(segs).len() == meta.length,
{
}

/// Segment-crossing equivalence: two valid vectors with the same capacity
/// and element size and equal logical contents — however differently their
/// storage is segmented — give every operation the same outcome, because
/// every operation's contract pins its result to one of the `spec_*` outcome
/// functions, which read only the contents, the capacity and the element
/// size.
pub proof fn lemma_segment_crossing_equivalence(
    m1: VectorMeta,
    s1: Seq<Vec<u8>>,
    m2: VectorMeta,
    s2: Seq<Vec<u8>>,
    data: Seq<u8>,
    n: int,
    i: int,
    j: int,
)
    requires
        m1.valid(s1),
        m2.valid(s2),
        m1.max_length == m2.max_length,
        m1.element_size == m2.element_size,
        m1.contents(s1) == m2.contents(s2),
    ensures
        m1.length == m2.length,
        spec_push(m1.contents(s1), m1.max_length as int, m1.element_size as int, data)
            == spec_push(m2.contents(s2), m2.max_length as int, m2.element_size as int, data),
        spec_pop(m1.contents(s1), n) == spec_pop(m2.contents(s2), n),
        spec_slice(m1.contents(s1), i, j) == spec_slice(m2.contents(s2), i, j),
        spec_remove_slice(m1.contents(s1), i, j) == spec_remove_slice(m2.contents(s2), i, j),
{
    assert(m1.contents(s1).len() == m1.length);
    assert(m2.contents(s2).len() == m2.length);
}

} // verus!
