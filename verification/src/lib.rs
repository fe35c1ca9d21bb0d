//! A generational mark-compact garbage collector over a linear,
//! word-addressed heap, with sliding compaction by pointer threading.
//!
//! The heap is a range of a [`memory::Memory`] of 32-bit words. Below its
//! base lies the static region with the roots; the dynamic heap is filled
//! by blocks without a gap. A cycle marks what is reachable from the roots
//! in the generation it collects, then slides the marked objects down to
//! the start of that generation and rewrites every pointer to them, using
//! no room beside the mark bitmap and the mark stack.
//!
//! - [`types`], [`memory`], [`visitor`]: units, tags and layouts; the
//!   memory; the size and the pointer fields of an object.
//! - [`heap`]: the anchors and roots of a heap, and what makes it well
//!   formed.
//! - [`bitmap`], [`mark_stack`], [`remembered_set`]: the collector's tools.
//! - [`experimental`]: the strategy, the mark phase, the cycle and the
//!   state that lasts from cycle to cycle.
//! - [`threading`], [`sliding`]: threading and unthreading, and the passes
//!   of the compaction.
//! - [`collection`]: what a cycle does to a heap, stated over the heap
//!   before the cycle: which objects survive, where they go, and what every
//!   word holds afterwards.
//! - [`reachability`], [`compaction`], [`survivors`], [`preservation`]: the
//!   proofs. Survivors slide down and keep their order; a cycle leaves a
//!   well-formed heap.
//! - [`sanity`]: a check that a heap is fit for a cycle.

pub mod bitmap;
pub mod collection;
pub mod compaction;
pub mod experimental;
pub mod heap;
pub mod mark_stack;
pub mod memory;
pub mod preservation;
pub mod reachability;
pub mod remembered_set;
pub mod sanity;
pub mod sliding;
pub mod survivors;
pub mod threading;
pub mod types;
pub mod visitor;
