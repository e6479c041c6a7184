//! Segment address translation: maps a logical element position to a
//! (segment, byte offset) pair, and reads, writes and swaps single elements
//! across a sequence of fixed-capacity storage segments.
//!
//! A collection's geometry is given by three numbers: `es`, the bytes per
//! element; `meps`, the maximum elements one segment holds; and `cap`, the
//! capacity of the collection in elements.  A segment always holds a whole
//! number of elements, so no element straddles a segment boundary.

use vstd::prelude::*;
use vstd::arithmetic::div_mod::*;
use vstd::arithmetic::mul::*;
use vstd::bytes::{spec_u64_from_le_bytes, u64_from_le_bytes};
use vstd::slice::slice_subrange;

verus! {

/// Reads the little-endian 64-bit word stored at byte offset `off`.
pub fn read_u64_at(bytes: &Vec<u8>, off: usize) -> (r: u64)
    requires
        off + 8 <= bytes@.len(),
    ensures
        r == spec_u64_from_le_bytes(bytes@.subrange(off as int, off as int + 8)),
{
    let blen = bytes.len();
    let s = slice_subrange(bytes.as_slice(), off, off + 8);
    u64_from_le_bytes(s)
}

/// Number of segments needed to hold `cap` elements, `meps` per segment.
pub open spec fn num_segments(cap: int, meps: int) -> int {
    (cap + meps - 1) / meps
}

/// Number of elements held by segment `s` (all segments are full except
/// possibly the last one).
pub open spec fn seg_elems(cap: int, meps: int, s: int) -> int {
    if cap - s * meps < meps {
        cap - s * meps
    } else {
        meps
    }
}

/// The storage of one collection is well formed: exactly enough segments to
/// cover `cap` elements of `es` bytes, each segment sized to the whole number
/// of elements it holds.
pub open spec fn segments_wf(segs: Seq<Vec<u8>>, es: int, meps: int, cap: int) -> bool {
    &&& 1 <= es
    &&& 1 <= meps
    &&& 1 <= cap
    &&& segs.len() == num_segments(cap, meps)
    &&& forall|s: int|
        0 <= s < segs.len() ==> #[trigger] segs[s]@.len() == seg_elems(cap, meps, s) * es
}

/// The bytes of the element stored at position `q`: segment `q / meps`,
/// starting at byte offset `(q % meps) * es` within that segment.
pub open spec fn element_at(segs: Seq<Vec<u8>>, es: int, meps: int, q: int) -> Seq<u8> {
    segs[q / meps]@.subrange((q % meps) * es, (q % meps) * es + es)
}

/// The byte sequences held by a sequence of byte vectors.
pub open spec fn views(vs: Seq<Vec<u8>>) -> Seq<Seq<u8>> {
    Seq::new(vs.len(), |i: int| vs[i]@)
}

/// The `t`-th element of `es` bytes within `data`.
pub open spec fn chunk_at(data: Seq<u8>, es: int, t: int) -> Seq<u8> {
    data.subrange(t * es, t * es + es)
}

/// `data` split into consecutive elements of `es` bytes each.
pub open spec fn chunks(data: Seq<u8>, es: int) -> Seq<Seq<u8>> {
    Seq::new(((data.len() as int) / es) as nat, |j: int| chunk_at(data, es, j))
}

/// The ring position `off` steps after `start` on a ring of `m` slots.
pub open spec fn ring_pos(start: int, off: int, m: int) -> int {
    (start + off) % m
}

/// Every position below the capacity resolves to a segment that exists and a
/// byte range that lies inside it.
pub proof fn lemma_element_in_bounds(segs: Seq<Vec<u8>>, es: int, meps: int, cap: int, q: int)
    requires
        segments_wf(segs, es, meps, cap),
        0 <= q < cap,
    ensures
        0 <= q / meps < segs.len(),
        0 <= (q % meps) * es,
        (q % meps) * es + es <= segs[q / meps]@.len(),
        0 <= q % meps < seg_elems(cap, meps, q / meps),
        element_at(segs, es, meps, q).len() == es,
{
    let s = q / meps;
    let t = q % meps;
    lemma_fundamental_div_mod(q, meps);
    lemma_mod_division_less_than_divisor(q, meps);
    lemma_div_pos_is_pos(q, meps);
    // s < num_segments(cap, meps)
    lemma_div_is_ordered(q, cap - 1, meps);
    lemma_div_plus_one(cap - 1, meps);
    assert(s <= (cap - 1) / meps);
    assert(num_segments(cap, meps) == (cap - 1) / meps + 1);
    // t < seg_elems(cap, meps, s)
    assert(t < cap - s * meps) by {
        assert(q == meps * s + t);
        lemma_mul_is_commutative(meps, s);
    }
    // (t + 1) * es <= seg_elems(cap, meps, s) * es
    lemma_mul_inequality(t + 1, seg_elems(cap, meps, s), es);
    lemma_mul_is_distributive_add_other_way(es, t, 1);
    assert(t * es + es <= seg_elems(cap, meps, s) * es);
    lemma_mul_nonnegative(t, es);
}

/// Two distinct positions that share a segment occupy disjoint byte ranges.
pub proof fn lemma_distinct_slots(es: int, meps: int, p: int, q: int)
    requires
        1 <= es,
        1 <= meps,
        0 <= p,
        0 <= q,
        p != q,
        p / meps == q / meps,
    ensures
        p % meps != q % meps,
        (p % meps) * es + es <= (q % meps) * es || (q % meps) * es + es <= (p % meps) * es,
{
    lemma_fundamental_div_mod(p, meps);
    lemma_fundamental_div_mod(q, meps);
    let tp = p % meps;
    let tq = q % meps;
    assert(tp != tq);
    if tp < tq {
        lemma_mul_inequality(tp + 1, tq, es);
        lemma_mul_is_distributive_add_other_way(es, tp, 1);
    } else {
        lemma_mul_inequality(tq + 1, tp, es);
        lemma_mul_is_distributive_add_other_way(es, tq, 1);
    }
}

/// Computes the segment index and in-segment byte offset of position `q`.
pub fn locate(es: u64, meps: u64, q: u64) -> (r: (u64, u64))
    requires
        1 <= es,
        1 <= meps,
        meps * es <= u64::MAX,
    ensures
        r.0 == q as int / meps as int,
        r.1 == (q as int % meps as int) * es as int,
{
    let s = q / meps;
    let t = q % meps;
    proof {
        lemma_mod_division_less_than_divisor(q as int, meps as int);
        assert(t * es + es <= meps * es) by {
            lemma_mul_inequality(t as int + 1, meps as int, es as int);
            lemma_mul_is_distributive_add_other_way(es as int, t as int, 1);
        }
    }
    (s, t * es)
}

/// Reads the element stored at position `q`.
pub fn read_element(segs: &Vec<Vec<u8>>, es: u64, meps: u64, cap: u64, q: u64) -> (r: Vec<u8>)
    requires
        segments_wf(segs@, es as int, meps as int, cap as int),
        meps * es <= u64::MAX,
        q < cap,
    ensures
        r@ == element_at(segs@, es as int, meps as int, q as int),
        r@.len() == es,
{
    proof {
        lemma_element_in_bounds(segs@, es as int, meps as int, cap as int, q as int);
    }
    // the vector length bounds the segment index within usize
    let total = segs.len();
    let (s64, off64) = locate(es, meps, q);
    let s = s64 as usize;
    let seg = &segs[s];
    let seg_len = seg.len();
    let off = off64 as usize;
    let esz = es as usize;
    let mut r: Vec<u8> = Vec::new();
    let mut i: usize = 0;
    while i < esz
        invariant
            i <= esz,
            esz == es,
            off == (q as int % meps as int) * es as int,
            seg_len == seg@.len(),
            off + esz <= seg_len,
            r@.len() == i,
            forall|j: int| 0 <= j < i ==> r@[j] == seg@[off + j],
        decreases esz - i,
    {
        let b = seg[off + i];
        r.push(b);
        i += 1;
    }
    proof {
        assert(r@ =~= element_at(segs@, es as int, meps as int, q as int));
    }
    r
}

/// Writes the `es` bytes of `data` starting at `doff` into position `q`.
/// Every other position keeps its element.
pub fn write_element(
    segs: &mut Vec<Vec<u8>>,
    es: u64,
    meps: u64,
    cap: u64,
    q: u64,
    data: &Vec<u8>,
    doff: usize,
)
    requires
        segments_wf(old(segs)@, es as int, meps as int, cap as int),
        meps * es <= u64::MAX,
        q < cap,
        doff + es <= data@.len(),
    ensures
        segments_wf(final(segs)@, es as int, meps as int, cap as int),
        element_at(final(segs)@, es as int, meps as int, q as int)
            == data@.subrange(doff as int, doff as int + es as int),
        forall|p: int|
            0 <= p < cap as int && p != q as int
                ==> element_at(final(segs)@, es as int, meps as int, p)
                    == element_at(old(segs)@, es as int, meps as int, p),
{
    proof {
        lemma_element_in_bounds(segs@, es as int, meps as int, cap as int, q as int);
    }
    // the vector length bounds the segment index within usize
    let total = segs.len();
    let (s64, off64) = locate(es, meps, q);
    let s = s64 as usize;
    let seg_len = segs[s].len();
    let off = off64 as usize;
    let esz = es as usize;
    let dlen = data.len();
    let ghost old_segs: Seq<Vec<u8>> = segs@;
    let mut i: usize = 0;
    while i < esz
        invariant
            i <= esz,
            esz == es,
            s == q as int / meps as int,
            off == (q as int % meps as int) * es as int,
            s < segs@.len(),
            dlen == data@.len(),
            doff + esz <= dlen,
            segs@.len() == old_segs.len(),
            seg_len == segs@[s as int]@.len(),
            segs@[s as int]@.len() == old_segs[s as int]@.len(),
            off + esz <= seg_len,
            forall|s2: int| 0 <= s2 < segs@.len() && s2 != s ==> segs@[s2] == old_segs[s2],
            forall|j: int|
                0 <= j < i ==> #[trigger] segs@[s as int]@[off + j] == data@[doff + j],
            forall|j: int|
                0 <= j < segs@[s as int]@.len() && !(off <= j < off + i)
                    ==> #[trigger] segs@[s as int]@[j] == old_segs[s as int]@[j],
        decreases esz - i,
    {
        let b = data[doff + i];
        segs[s][off + i] = b;
        i += 1;
    }
    proof {
        assert forall|s2: int| 0 <= s2 < segs@.len() implies #[trigger] segs@[s2]@.len()
            == seg_elems(cap as int, meps as int, s2) * es as int by {
            if s2 != s as int {
                assert(segs@[s2] == old_segs[s2]);
            }
        }
        assert forall|j: int| 0 <= j < es as int implies element_at(
            segs@,
            es as int,
            meps as int,
            q as int,
        )[j] == data@.subrange(doff as int, doff as int + es as int)[j] by {
            assert(segs@[s as int]@[off + j] == data@[doff + j]);
        }
        assert(element_at(segs@, es as int, meps as int, q as int)
            =~= data@.subrange(doff as int, doff as int + es as int));
        assert forall|p: int| 0 <= p < cap as int && p != q as int
            implies element_at(segs@, es as int, meps as int, p)
                == element_at(old_segs, es as int, meps as int, p) by {
            lemma_element_in_bounds(old_segs, es as int, meps as int, cap as int, p);
            let sp = p / meps as int;
            if sp == s as int {
                lemma_distinct_slots(es as int, meps as int, p, q as int);
                assert(element_at(segs@, es as int, meps as int, p)
                    =~= element_at(old_segs, es as int, meps as int, p));
            } else {
                assert(segs@[sp] == old_segs[sp]);
                assert(element_at(segs@, es as int, meps as int, p)
                    =~= element_at(old_segs, es as int, meps as int, p));
            }
        }
    }
}

/// Exchanges the elements at positions `q1` and `q2`.
pub fn swap_elements(segs: &mut Vec<Vec<u8>>, es: u64, meps: u64, cap: u64, q1: u64, q2: u64)
    requires
        segments_wf(old(segs)@, es as int, meps as int, cap as int),
        meps * es <= u64::MAX,
        q1 < cap,
        q2 < cap,
        q1 != q2,
    ensures
        segments_wf(final(segs)@, es as int, meps as int, cap as int),
        element_at(final(segs)@, es as int, meps as int, q1 as int)
            == element_at(old(segs)@, es as int, meps as int, q2 as int),
        element_at(final(segs)@, es as int, meps as int, q2 as int)
            == element_at(old(segs)@, es as int, meps as int, q1 as int),
        forall|p: int|
            0 <= p < cap as int && p != q1 as int && p != q2 as int
                ==> element_at(final(segs)@, es as int, meps as int, p)
                    == element_at(old(segs)@, es as int, meps as int, p),
{
    let e1 = read_element(segs, es, meps, cap, q1);
    let e2 = read_element(segs, es, meps, cap, q2);
    proof {
        assert(e2@.subrange(0, es as int) =~= e2@);
        assert(e1@.subrange(0, es as int) =~= e1@);
    }
    write_element(segs, es, meps, cap, q1, &e2, 0);
    write_element(segs, es, meps, cap, q2, &e1, 0);
}

/// Allocates zero-filled segments covering exactly `cap` elements.
pub fn alloc_segments(es: u64, meps: u64, cap: u64) -> (segs: Vec<Vec<u8>>)
    requires
        1 <= es,
        1 <= meps,
        1 <= cap,
        meps * es <= u64::MAX,
        meps * es <= usize::MAX,
        cap * es <= u64::MAX,
    ensures
        segments_wf(segs@, es as int, meps as int, cap as int),
{
    let mut segs: Vec<Vec<u8>> = Vec::new();
    let mut done: u64 = 0;
    proof {
        lemma_mul_basics(meps as int);
    }
    while done < cap
        invariant
            1 <= es,
            1 <= meps,
            1 <= cap,
            meps * es <= u64::MAX,
            meps * es <= usize::MAX,
            cap * es <= u64::MAX,
            done <= cap,
            done < cap ==> done == segs@.len() * meps as int,
            done == cap ==> segs@.len() == num_segments(cap as int, meps as int),
            forall|s: int|
                0 <= s < segs@.len() ==> #[trigger] segs@[s]@.len()
                    == seg_elems(cap as int, meps as int, s) * es as int,
        decreases cap - done,
    {
        let take = if cap - done < meps {
            cap - done
        } else {
            meps
        };
        proof {
            lemma_mul_inequality(take as int, meps as int, es as int);
            lemma_mul_nonnegative(take as int, es as int);
        }
        let seg_len = (take * es) as usize;
        let seg: Vec<u8> = vec![0u8; seg_len];
        let ghost k = segs@.len() as int;
        segs.push(seg);
        proof {
            assert(seg_elems(cap as int, meps as int, k) == take as int);
            if done + take == cap {
                // the count of segments now matches num_segments(cap, meps)
                let m = meps as int;
                let t = take as int;
                assert(cap as int + m - 1 == m * (k + 1) + (t - 1)) by {
                    lemma_mul_is_distributive_add(m, k, 1);
                    lemma_mul_is_commutative(m, k);
                }
                lemma_div_multiples_vanish_fancy(k + 1, t - 1, m);
                assert(num_segments(cap as int, meps as int) == k + 1);
            } else {
                assert((k + 1) * meps as int == k * meps as int + meps as int) by {
                    lemma_mul_is_distributive_add_other_way(meps as int, k, 1);
                }
            }
        }
        done = done + take;
    }
    segs
}

/// Advances a ring cursor: the position `i` steps after `start` on a ring of
/// `ml` element slots.
pub fn ring_add(start: u64, i: u64, ml: u64) -> (r: u64)
    requires
        start < ml,
        i <= ml,
    ensures
        r == (start as int + i as int) % ml as int,
        r < ml,
{
    if i < ml - start {
        proof {
            lemma_small_mod((start + i) as nat, ml as nat);
        }
        start + i
    } else {
        proof {
            lemma_mod_add_multiples_vanish((start + i - ml) as int, ml as int);
            lemma_small_mod((start + i - ml) as nat, ml as nat);
        }
        i - (ml - start)
    }
}

/// Steps a ring cursor backward: the position `k` steps before `start` on a
/// ring of `ml` element slots.
pub fn ring_sub(start: u64, k: u64, ml: u64) -> (r: u64)
    requires
        start < ml,
        k <= ml,
    ensures
        r == (start as int + ml as int - k as int) % ml as int,
        r < ml,
{
    if k <= start {
        proof {
            lemma_mod_add_multiples_vanish((start - k) as int, ml as int);
            lemma_small_mod((start - k) as nat, ml as nat);
        }
        start - k
    } else {
        proof {
            lemma_small_mod((start + ml - k) as nat, ml as nat);
        }
        start + (ml - k)
    }
}

/// Adding on the ring is associative with the modulus: wrapping after `a`
/// steps and then taking `b` more lands where `a + b` steps land.
pub proof fn lemma_ring_add_assoc(s: int, a: int, b: int, m: int)
    requires
        0 < m,
        0 <= s,
        0 <= a,
        0 <= b < m,
    ensures
        ((s + a) % m + b) % m == (s + a + b) % m,
{
    lemma_add_mod_noop(s + a, b, m);
    lemma_small_mod(b as nat, m as nat);
}

/// Distinct offsets below the ring size land on distinct ring positions.
pub proof fn lemma_ring_distinct(s: int, i: int, j: int, m: int)
    requires
        0 < m,
        0 <= s < m,
        0 <= i < m,
        0 <= j < m,
        i != j,
    ensures
        (s + i) % m != (s + j) % m,
{
    lemma_ring_mod_cases(s, i, m);
    lemma_ring_mod_cases(s, j, m);
}

/// On a ring, the sum of two values below the ring size wraps at most once.
pub proof fn lemma_ring_mod_cases(s: int, i: int, m: int)
    requires
        0 < m,
        0 <= s < m,
        0 <= i <= m,
    ensures
        (s + i) % m == if s + i < m {
            s + i
        } else {
            s + i - m
        },
{
    if s + i < m {
        lemma_small_mod((s + i) as nat, m as nat);
    } else {
        lemma_mod_add_multiples_vanish(s + i - m, m);
        lemma_small_mod((s + i - m) as nat, m as nat);
    }
}

/// A factor above `bound / es` multiplied by `es` exceeds `bound`.
pub proof fn lemma_quotient_exceeds(ml: int, es: int, bound: int)
    requires
        1 <= es,
        0 <= bound,
        ml > bound / es,
    ensures
        ml * es > bound,
{
    lemma_fundamental_div_mod(bound, es);
    lemma_mod_division_less_than_divisor(bound, es);
    lemma_mul_inequality(bound / es + 1, ml, es);
    lemma_mul_is_distributive_add_other_way(es, bound / es, 1);
    lemma_mul_is_commutative(es, bound / es);
}

/// A factor at most `bound / es` multiplied by `es` stays within `bound`.
pub proof fn lemma_quotient_fits(ml: int, es: int, bound: int)
    requires
        1 <= es,
        0 <= ml <= bound / es,
        0 <= bound,
    ensures
        ml * es <= bound,
{
    lemma_fundamental_div_mod(bound, es);
    lemma_mod_division_less_than_divisor(bound, es);
    lemma_mul_inequality(ml, bound / es, es);
    lemma_mul_is_commutative(es, bound / es);
}

} // verus!
