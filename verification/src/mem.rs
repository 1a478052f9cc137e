//! Storage-slot descriptors for a function's activation record.

use vstd::prelude::*;

verus! {

/// Index of one storage location within a frame's activation record.
/// Assigned densely from 0 in allocation order; never reused or reordered.
#[derive(Clone, Copy, PartialEq, Eq, Hash, Debug, Structural)]
pub struct SlotIx(pub usize);

/// How the code generator must realise a slot's storage.
#[derive(Clone, Copy, PartialEq, Eq, Debug, Structural)]
pub enum SlotKind {
    /// An ordinary local; storage lives exactly as long as the activation.
    Regular,
    /// A local captured by at least one nested function; its storage must
    /// outlive the activation.
    Closed,
    /// A slot holding no value of its own: it forwards to slot `from` of the
    /// immediately enclosing frame's activation.
    Capture { from: SlotIx },
}

/// Immutable, finalized slot layout of one function, produced exactly once
/// when its frame is exited and consumed by the code generator.
#[derive(Debug)]
pub struct FrameInfo {
    /// One descriptor per slot, in slot-index order.
    pub slots: Vec<SlotKind>,
}

} // verus!
