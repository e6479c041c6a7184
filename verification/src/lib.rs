//! General-purpose collection types — a circular double-ended queue, a
//! binary min-heap and a linear append vector — whose backing storage is not
//! one contiguous region but a sequence of independently allocated,
//! fixed-capacity byte segments.
//!
//! The core is the segmented-storage addressing and mutation engine: the
//! arithmetic that maps a logical element index to a (segment, offset) pair
//! lives in [`translator`], and the three collection engines build on it.
//! Every segment holds a whole number of elements, so no element's bytes
//! ever straddle two segments.  Each operation validates capacity and bounds
//! before it writes anything, so a rejected call leaves the metadata and
//! every segment byte untouched.
//!
//! Allocation of new segments, wire decoding of caller requests,
//! authorization and reclamation of a deleted collection's storage are the
//! host environment's concern; the engines only compute.

pub mod deque;
pub mod heap;
pub mod translator;
pub mod vector;
