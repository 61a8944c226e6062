//! Lazy-buffer nodes: the immutable records that make up the computation
//! graph, and the spec-level structure (operands, scheduling edges, cache
//! keys, per-node well-formedness) that the rest of the engine builds on.

use crate::handle::{BufferHandle, LazyBufferHandle, TensorId};
use vstd::prelude::*;

verus! {

/// How a creation node obtained its contents.
#[derive(Debug, Clone)]
pub enum CreationType {
    /// Placeholder for randomly initialised data; realized as zeros.
    Random,
    /// Inline host data (32-bit words), uploaded on first realization.
    RawData(Vec<u32>),
    /// Already realized: the node's device buffer holds the data, and the
    /// inline host data has been dropped.
    Created,
}

/// The operation recorded on a lazy buffer.
#[derive(Debug, Clone)]
pub enum LazyOp {
    Creation(CreationType),
    /// Refresh the node's buffer with zeros on every realization; the handle
    /// names the buffer whose size the node mirrors.
    Clear(LazyBufferHandle),
    Add(LazyBufferHandle, LazyBufferHandle),
    Subtract(LazyBufferHandle, LazyBufferHandle),
    Multiply(LazyBufferHandle, LazyBufferHandle),
    Divide(LazyBufferHandle, LazyBufferHandle),
    /// Overwrite the first buffer's contents with the second's values.  The
    /// node reuses the destination's identity, which keeps gradient
    /// accumulator slots stable across backward passes.
    Memset(LazyBufferHandle, LazyBufferHandle),
}

/// Whether a node is addressable from a tensor, or an unowned scratch node
/// eligible for value- and operation-based deduplication.
#[derive(Debug, Copy, Clone)]
pub enum LazybufferType {
    Scratch,
    TensorData(TensorId),
}

/// An immutable node of the computation graph.
#[derive(Debug, Clone)]
pub struct LazyBuffer {
    /// Identity; always equals the node's index in the registry.
    pub id: LazyBufferHandle,
    pub kind: LazybufferType,
    /// Element count.
    pub size: usize,
    pub operation: LazyOp,
    /// Set once the node has been realized on a backend.
    pub device_buffer: Option<BufferHandle>,
}

/// True for the four element-wise binary operations.
pub open spec fn is_binary_op(op: LazyOp) -> bool {
    ||| op is Add
    ||| op is Subtract
    ||| op is Multiply
    ||| op is Divide
}

/// The two operands of a binary or memset operation.
pub open spec fn op_operands(op: LazyOp) -> (LazyBufferHandle, LazyBufferHandle)
    recommends
        is_binary_op(op) || op is Memset,
{
    match op {
        LazyOp::Add(a, b) => (a, b),
        LazyOp::Subtract(a, b) => (a, b),
        LazyOp::Multiply(a, b) => (a, b),
        LazyOp::Divide(a, b) => (a, b),
        LazyOp::Memset(a, b) => (a, b),
        _ => arbitrary(),
    }
}

/// The scheduling edges of the graph: which node identities must be realized
/// before a node carrying the given operation.  Creation and clear nodes are
/// leaves; a memset depends only on its source, since its destination is the
/// node itself.
pub open spec fn is_sched_child(op: LazyOp, c: int) -> bool {
    match op {
        LazyOp::Creation(_) => false,
        LazyOp::Clear(_) => false,
        LazyOp::Add(a, b) => c == a.0 || c == b.0,
        LazyOp::Subtract(a, b) => c == a.0 || c == b.0,
        LazyOp::Multiply(a, b) => c == a.0 || c == b.0,
        LazyOp::Divide(a, b) => c == a.0 || c == b.0,
        LazyOp::Memset(_, b) => c == b.0,
    }
}

/// Two operations are the same binary operation: same variant, same operand
/// handles in the same order.
pub open spec fn same_binary_op(op1: LazyOp, op2: LazyOp) -> bool {
    is_binary_op(op1) && is_binary_op(op2) && match (op1, op2) {
        (LazyOp::Add(a1, b1), LazyOp::Add(a2, b2)) => a1 == a2 && b1 == b2,
        (LazyOp::Subtract(a1, b1), LazyOp::Subtract(a2, b2)) => a1 == a2 && b1 == b2,
        (LazyOp::Multiply(a1, b1), LazyOp::Multiply(a2, b2)) => a1 == a2 && b1 == b2,
        (LazyOp::Divide(a1, b1), LazyOp::Divide(a2, b2)) => a1 == a2 && b1 == b2,
        _ => false,
    }
}

/// Two operations are structurally equal: same variant, same handles, and —
/// for inline creation data — the same words (the vectors themselves may be
/// distinct copies).
pub open spec fn op_eq(op1: LazyOp, op2: LazyOp) -> bool {
    match (op1, op2) {
        (LazyOp::Creation(CreationType::Random), LazyOp::Creation(CreationType::Random)) => true,
        (LazyOp::Creation(CreationType::Created), LazyOp::Creation(CreationType::Created)) => true,
        (
            LazyOp::Creation(CreationType::RawData(d1)),
            LazyOp::Creation(CreationType::RawData(d2)),
        ) => d1@ == d2@,
        (LazyOp::Clear(a1), LazyOp::Clear(a2)) => a1 == a2,
        (LazyOp::Add(a1, b1), LazyOp::Add(a2, b2)) => a1 == a2 && b1 == b2,
        (LazyOp::Subtract(a1, b1), LazyOp::Subtract(a2, b2)) => a1 == a2 && b1 == b2,
        (LazyOp::Multiply(a1, b1), LazyOp::Multiply(a2, b2)) => a1 == a2 && b1 == b2,
        (LazyOp::Divide(a1, b1), LazyOp::Divide(a2, b2)) => a1 == a2 && b1 == b2,
        (LazyOp::Memset(a1, b1), LazyOp::Memset(a2, b2)) => a1 == a2 && b1 == b2,
        _ => false,
    }
}

/// Key under which the scratch-op cache stores an operation.  Commutative
/// operations (add, multiply) normalize their operand order, so `a + b` and
/// `b + a` share one key; subtraction, division and clear are
/// order-sensitive.
#[derive(Debug, Copy, Clone, PartialEq, Eq, Structural)]
pub struct OpKey {
    pub tag: u8,
    pub x: usize,
    pub y: usize,
}

/// The normalized scratch-op cache key of an operation; creation and memset
/// operations are never cached.
pub open spec fn spec_op_key(op: LazyOp) -> Option<OpKey> {
    match op {
        LazyOp::Creation(_) => None,
        LazyOp::Clear(a) => Some(OpKey { tag: 1u8, x: a.0, y: 0usize }),
        LazyOp::Add(a, b) => Some(normalized_key(2u8, a.0, b.0)),
        LazyOp::Multiply(a, b) => Some(normalized_key(3u8, a.0, b.0)),
        LazyOp::Subtract(a, b) => Some(OpKey { tag: 4u8, x: a.0, y: b.0 }),
        LazyOp::Divide(a, b) => Some(OpKey { tag: 5u8, x: a.0, y: b.0 }),
        LazyOp::Memset(_, _) => None,
    }
}

/// A key whose operand fields are sorted, for the commutative operations.
pub open spec fn normalized_key(tag: u8, a: usize, b: usize) -> OpKey {
    if a <= b {
        OpKey { tag: tag, x: a, y: b }
    } else {
        OpKey { tag: tag, x: b, y: a }
    }
}

/// The ordered cache key used by the tensor-level op cache: same tags as the
/// scratch keys, but operand order is always kept, so it identifies the exact
/// construction `op(lhs, rhs)`.
pub open spec fn spec_tensor_key(op: LazyOp) -> Option<OpKey> {
    match op {
        LazyOp::Add(a, b) => Some(OpKey { tag: 2u8, x: a.0, y: b.0 }),
        LazyOp::Multiply(a, b) => Some(OpKey { tag: 3u8, x: a.0, y: b.0 }),
        LazyOp::Subtract(a, b) => Some(OpKey { tag: 4u8, x: a.0, y: b.0 }),
        LazyOp::Divide(a, b) => Some(OpKey { tag: 5u8, x: a.0, y: b.0 }),
        _ => None,
    }
}

/// The normalized scratch-op cache key, computed executably.
pub fn op_key(op: &LazyOp) -> (r: Option<OpKey>)
    ensures
        r == spec_op_key(*op),
{
    match op {
        LazyOp::Creation(_) => None,
        LazyOp::Clear(a) => Some(OpKey { tag: 1u8, x: a.0, y: 0usize }),
        LazyOp::Add(a, b) => Some(make_normalized_key(2u8, a.0, b.0)),
        LazyOp::Multiply(a, b) => Some(make_normalized_key(3u8, a.0, b.0)),
        LazyOp::Subtract(a, b) => Some(OpKey { tag: 4u8, x: a.0, y: b.0 }),
        LazyOp::Divide(a, b) => Some(OpKey { tag: 5u8, x: a.0, y: b.0 }),
        LazyOp::Memset(_, _) => None,
    }
}

/// The ordered tensor-level cache key, computed executably.
pub fn tensor_key(op: &LazyOp) -> (r: Option<OpKey>)
    ensures
        r == spec_tensor_key(*op),
{
    match op {
        LazyOp::Add(a, b) => Some(OpKey { tag: 2u8, x: a.0, y: b.0 }),
        LazyOp::Multiply(a, b) => Some(OpKey { tag: 3u8, x: a.0, y: b.0 }),
        LazyOp::Subtract(a, b) => Some(OpKey { tag: 4u8, x: a.0, y: b.0 }),
        LazyOp::Divide(a, b) => Some(OpKey { tag: 5u8, x: a.0, y: b.0 }),
        _ => None,
    }
}

fn make_normalized_key(tag: u8, a: usize, b: usize) -> (r: OpKey)
    ensures
        r == normalized_key(tag, a, b),
{
    if a <= b {
        OpKey { tag: tag, x: a, y: b }
    } else {
        OpKey { tag: tag, x: b, y: a }
    }
}

/// Per-node well-formedness: identity equals registry index, an owner index
/// in range, a device handle (if any) carrying the node's own identity and
/// size, and operands that are previously registered nodes of the same size
/// (a memset's destination is the node itself; its source may lie anywhere in
/// the registry).
pub open spec fn node_wf(nodes: Seq<LazyBuffer>, tensor_count: nat, i: int) -> bool
    recommends
        0 <= i < nodes.len(),
{
    let n = nodes[i];
    &&& n.id.0 == i
    &&& (n.kind matches LazybufferType::TensorData(t) ==> t.0 < tensor_count)
    &&& (n.device_buffer matches Some(h) ==> h.id.0 == i && h.size == n.size)
    &&& (n.device_buffer is Some ==> !(n.operation matches LazyOp::Creation(
        CreationType::RawData(_),
    )) && !(n.operation matches LazyOp::Creation(CreationType::Random)))
    &&& match n.operation {
        LazyOp::Creation(CreationType::RawData(d)) => d@.len() == n.size,
        LazyOp::Creation(_) => true,
        LazyOp::Clear(a) => a.0 < i && nodes[a.0 as int].size == n.size,
        LazyOp::Add(a, b) => binary_node_wf(nodes, i, a, b),
        LazyOp::Subtract(a, b) => binary_node_wf(nodes, i, a, b),
        LazyOp::Multiply(a, b) => binary_node_wf(nodes, i, a, b),
        LazyOp::Divide(a, b) => binary_node_wf(nodes, i, a, b),
        LazyOp::Memset(a, b) => a.0 == i && b.0 < nodes.len() && nodes[b.0 as int].size
            == n.size,
    }
}

/// Operand conditions of a binary node: both operands registered before the
/// node, both of the node's size.
pub open spec fn binary_node_wf(
    nodes: Seq<LazyBuffer>,
    i: int,
    a: LazyBufferHandle,
    b: LazyBufferHandle,
) -> bool {
    &&& a.0 < i
    &&& b.0 < i
    &&& nodes[a.0 as int].size == nodes[i].size
    &&& nodes[b.0 as int].size == nodes[i].size
}

} // verus!
