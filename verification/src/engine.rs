//! The engine value: the node registry, the tensor table, the memoization
//! caches, and their shared well-formedness invariant.
//!
//! The original design keeps this state process-wide; here it is one explicit
//! value that every operation takes by reference, which confines all mutation
//! to a single owner.

use crate::handle::{LazyBufferHandle, TensorId};
use crate::node::{
    node_wf, same_binary_op, spec_op_key, spec_tensor_key, LazyBuffer, LazyOp, LazybufferType,
    OpKey,
};
use crate::tensor::Tensor;
use vstd::prelude::*;

verus! {

/// A scratch-data cache entry: a copy of the creation data of a scratch node,
/// so equal data keeps resolving to the same node even after the node itself
/// has been realized and its inline data dropped.
pub struct ScratchDataEntry {
    pub data: Vec<u32>,
    pub handle: LazyBufferHandle,
}

/// A scratch-op cache entry: a normalized operation key and the scratch node
/// registered for it.
pub struct ScratchOpEntry {
    pub key: OpKey,
    pub handle: LazyBufferHandle,
}

/// A tensor-op cache entry: the exact construction key `op(lhs, rhs)` and the
/// tensor it first produced.
pub struct TensorOpEntry {
    pub key: OpKey,
    pub tensor: TensorId,
}

/// A lineage record: an operation node registered under a tensor, consulted
/// for structural common-subexpression elimination within that lineage.
pub struct ChildEntry {
    pub owner: TensorId,
    pub handle: LazyBufferHandle,
}

/// All engine state.
pub struct Engine {
    /// Append-only registry of lazy-buffer nodes; a node's identity is its
    /// index.
    pub nodes: Vec<LazyBuffer>,
    /// Value-based deduplication of scratch creations.
    pub scratch_data_cache: Vec<ScratchDataEntry>,
    /// Operation-based deduplication of scratch ops.
    pub scratch_op_cache: Vec<ScratchOpEntry>,
    /// The tensor table; a tensor's identity is its index.
    pub tensors: Vec<Tensor>,
    /// The operation nodes registered under each tensor, consulted for
    /// structural common-subexpression elimination within one lineage.
    pub tensor_children: Vec<ChildEntry>,
    /// Tensor-level memoization of operator applications.
    pub tensor_op_cache: Vec<TensorOpEntry>,
}

/// Well-formedness of one tensor-table entry against the registry.
pub open spec fn tensor_wf(nodes: Seq<LazyBuffer>, tensors: Seq<Tensor>, t: int) -> bool
    recommends
        0 <= t < tensors.len(),
{
    let tn = tensors[t];
    &&& tn.id.0 == t
    &&& tn.buffer.0 < nodes.len()
    &&& (nodes[tn.buffer.0 as int].kind matches LazybufferType::TensorData(o) && o.0 == t)
    &&& value_op_wf(nodes, tensors, t)
    &&& (tn.gradient matches Some(g) ==> {
        &&& g.0 < nodes.len()
        &&& (nodes[g.0 as int].kind matches LazybufferType::TensorData(o) && o.0 == t)
        &&& nodes[g.0 as int].size == nodes[tn.buffer.0 as int].size
        &&& g != tn.buffer
        &&& !crate::node::is_binary_op(nodes[g.0 as int].operation)
    })
}

/// The shape of a tensor's value buffer: a creation node, or a binary
/// operation over buffers owned by earlier tensors.  Only gradient
/// accumulators — never value buffers — may be memset targets, so this shape
/// is stable for the life of the tensor.
pub open spec fn value_op_wf(nodes: Seq<LazyBuffer>, tensors: Seq<Tensor>, t: int) -> bool
    recommends
        0 <= t < tensors.len(),
        tensors[t].buffer.0 < nodes.len(),
{
    match nodes[tensors[t].buffer.0 as int].operation {
        LazyOp::Creation(_) => true,
        LazyOp::Add(a, b) => operand_owned_before(nodes, a, t) && operand_owned_before(nodes, b, t),
        LazyOp::Subtract(a, b) => operand_owned_before(nodes, a, t) && operand_owned_before(
            nodes,
            b,
            t,
        ),
        LazyOp::Multiply(a, b) => operand_owned_before(nodes, a, t) && operand_owned_before(
            nodes,
            b,
            t,
        ),
        LazyOp::Divide(a, b) => operand_owned_before(nodes, a, t) && operand_owned_before(
            nodes,
            b,
            t,
        ),
        _ => false,
    }
}

/// The operand is a registered node owned by a tensor created before `t`.
pub open spec fn operand_owned_before(nodes: Seq<LazyBuffer>, h: LazyBufferHandle, t: int) -> bool {
    &&& h.0 < nodes.len()
    &&& (nodes[h.0 as int].kind matches LazybufferType::TensorData(o) && o.0 < t)
}

impl Engine {
    /// A fresh engine with no nodes, no tensors and empty caches.
    pub fn new() -> (e: Engine)
        ensures
            e.wf(),
            e.nodes@.len() == 0,
            e.tensors@.len() == 0,
            e.scratch_data_cache@.len() == 0,
            e.scratch_op_cache@.len() == 0,
            e.tensor_children@.len() == 0,
            e.tensor_op_cache@.len() == 0,
    {
        Engine {
            nodes: Vec::new(),
            scratch_data_cache: Vec::new(),
            scratch_op_cache: Vec::new(),
            tensors: Vec::new(),
            tensor_children: Vec::new(),
            tensor_op_cache: Vec::new(),
        }
    }

    /// Number of registered lazy-buffer nodes.
    pub fn node_count(&self) -> (n: usize)
        ensures
            n == self.nodes@.len(),
    {
        self.nodes.len()
    }

    /// Number of registered tensors.
    pub fn tensor_count(&self) -> (n: usize)
        ensures
            n == self.tensors@.len(),
    {
        self.tensors.len()
    }

    pub open spec fn nodes_wf(self) -> bool {
        forall|i: int|
            0 <= i < self.nodes@.len() ==> #[trigger] node_wf(self.nodes@, self.tensors@.len(), i)
    }

    pub open spec fn tensors_wf(self) -> bool {
        forall|t: int|
            0 <= t < self.tensors@.len() ==> #[trigger] tensor_wf(self.nodes@, self.tensors@, t)
    }

    /// The lineage records: each entry a binary operation node owned by its
    /// recorded tensor, and no two entries of one tensor recording the same
    /// operation (the lineage CSE keeps them unique).
    pub open spec fn children_wf(self) -> bool {
        &&& forall|j: int|
            0 <= j < self.tensor_children@.len() ==> #[trigger] child_entry_wf(
                self.nodes@,
                self.tensor_children@[j],
            )
        &&& forall|j: int, k: int|
            0 <= j < k < self.tensor_children@.len() && #[trigger] self.tensor_children@[j].owner
                == #[trigger] self.tensor_children@[k].owner ==> !same_binary_op(
                self.nodes@[self.tensor_children@[j].handle.0 as int].operation,
                self.nodes@[self.tensor_children@[k].handle.0 as int].operation,
            )
    }

    /// Entries of the scratch-data cache: a registered scratch node of the
    /// recorded data's length, with no two entries holding equal data.
    pub open spec fn scratch_data_wf(self) -> bool {
        &&& forall|j: int|
            0 <= j < self.scratch_data_cache@.len() ==> #[trigger] scratch_data_entry_wf(
                self.nodes@,
                self.scratch_data_cache@[j],
            )
        &&& forall|j: int, k: int|
            0 <= j < k < self.scratch_data_cache@.len()
                ==> #[trigger] self.scratch_data_cache@[j].data@
                != #[trigger] self.scratch_data_cache@[k].data@
    }

    /// Entries of the scratch-op cache: a registered scratch node whose
    /// operation normalizes to the recorded key, with distinct keys.
    pub open spec fn scratch_op_wf(self) -> bool {
        &&& forall|j: int|
            0 <= j < self.scratch_op_cache@.len() ==> #[trigger] scratch_op_entry_wf(
                self.nodes@,
                self.scratch_op_cache@[j],
            )
        &&& forall|j: int, k: int|
            0 <= j < k < self.scratch_op_cache@.len() ==> #[trigger] self.scratch_op_cache@[j].key
                != #[trigger] self.scratch_op_cache@[k].key
    }

    /// Entries of the tensor-op cache: a registered tensor whose value buffer
    /// carries exactly the construction the key records, with distinct keys.
    pub open spec fn tensor_op_wf(self) -> bool {
        &&& forall|j: int|
            0 <= j < self.tensor_op_cache@.len() ==> #[trigger] tensor_op_entry_wf(
                self.nodes@,
                self.tensors@,
                self.tensor_op_cache@[j],
            )
        &&& forall|j: int, k: int|
            0 <= j < k < self.tensor_op_cache@.len() ==> #[trigger] self.tensor_op_cache@[j].key
                != #[trigger] self.tensor_op_cache@[k].key
    }

    /// The engine invariant: every public operation requires and preserves it.
    pub open spec fn wf(self) -> bool {
        &&& self.nodes_wf()
        &&& self.tensors_wf()
        &&& self.children_wf()
        &&& self.scratch_data_wf()
        &&& self.scratch_op_wf()
        &&& self.tensor_op_wf()
    }

    /// The backend's buffer table agrees with the registry: any buffer a
    /// backend holds under a node identity has that node's element count, and
    /// every node marked realized has its buffer present.  This ties one
    /// engine to one backend; the public operations that touch a backend
    /// require and preserve it.
    pub open spec fn backend_fits(self, m: Map<int, Seq<u32>>) -> bool {
        &&& forall|i: int|
            0 <= i < self.nodes@.len() && #[trigger] m.dom().contains(i) ==> m[i].len()
                == self.nodes@[i].size
        &&& forall|i: int|
            0 <= i < self.nodes@.len() && (#[trigger] self.nodes@[i].device_buffer) is Some
                ==> m.dom().contains(i)
        &&& forall|i: int|
            #[trigger] m.dom().contains(i) ==> 0 <= i < self.nodes@.len() || i
                == crate::handle::LAZYBUFFER_HANDLE_NULL_ID as int
    }

    /// Frame: the four caches and the children lists are unchanged.
    pub open spec fn caches_unchanged(self, other: Engine) -> bool {
        &&& self.scratch_data_cache@ == other.scratch_data_cache@
        &&& self.scratch_op_cache@ == other.scratch_op_cache@
        &&& self.tensor_op_cache@ == other.tensor_op_cache@
        &&& self.tensor_children@ == other.tensor_children@
    }
}

/// One lineage record is well formed.
pub open spec fn child_entry_wf(nodes: Seq<LazyBuffer>, e: ChildEntry) -> bool {
    &&& e.handle.0 < nodes.len()
    &&& (nodes[e.handle.0 as int].kind matches LazybufferType::TensorData(o) && o == e.owner)
    &&& crate::node::is_binary_op(nodes[e.handle.0 as int].operation)
}

/// One scratch-data cache entry is well formed.  A cached scratch node is
/// always a creation node: it is registered as one, and nothing but the
/// created-marker rewrite ever touches its operation.
pub open spec fn scratch_data_entry_wf(nodes: Seq<LazyBuffer>, e: ScratchDataEntry) -> bool {
    &&& e.handle.0 < nodes.len()
    &&& nodes[e.handle.0 as int].kind is Scratch
    &&& nodes[e.handle.0 as int].size == e.data@.len()
    &&& nodes[e.handle.0 as int].operation is Creation
}

/// One scratch-op cache entry is well formed.
pub open spec fn scratch_op_entry_wf(nodes: Seq<LazyBuffer>, e: ScratchOpEntry) -> bool {
    &&& e.handle.0 < nodes.len()
    &&& nodes[e.handle.0 as int].kind is Scratch
    &&& spec_op_key(nodes[e.handle.0 as int].operation) == Some(e.key)
}

/// One tensor-op cache entry is well formed.
pub open spec fn tensor_op_entry_wf(
    nodes: Seq<LazyBuffer>,
    tensors: Seq<Tensor>,
    e: TensorOpEntry,
) -> bool {
    &&& e.tensor.0 < tensors.len()
    &&& tensors[e.tensor.0 as int].buffer.0 < nodes.len()
    &&& spec_tensor_key(nodes[tensors[e.tensor.0 as int].buffer.0 as int].operation) == Some(e.key)
}

/// Every well-formedness component except the new node's own survives when
/// the registry and the caches grow at the end and the tensor table is
/// unchanged.
pub proof fn lemma_wf_extend(e1: Engine, e2: Engine)
    requires
        e1.wf(),
        e1.nodes@.len() <= e2.nodes@.len(),
        forall|j: int| 0 <= j < e1.nodes@.len() ==> e2.nodes@[j] == e1.nodes@[j],
        e2.tensors@ == e1.tensors@,
        e1.scratch_data_cache@.len() <= e2.scratch_data_cache@.len(),
        forall|j: int|
            0 <= j < e1.scratch_data_cache@.len() ==> e2.scratch_data_cache@[j]
                == e1.scratch_data_cache@[j],
        e1.scratch_op_cache@.len() <= e2.scratch_op_cache@.len(),
        forall|j: int|
            0 <= j < e1.scratch_op_cache@.len() ==> e2.scratch_op_cache@[j]
                == e1.scratch_op_cache@[j],
        e1.tensor_children@.len() <= e2.tensor_children@.len(),
        forall|j: int|
            0 <= j < e1.tensor_children@.len() ==> e2.tensor_children@[j]
                == e1.tensor_children@[j],
        e1.tensor_op_cache@.len() <= e2.tensor_op_cache@.len(),
        forall|j: int|
            0 <= j < e1.tensor_op_cache@.len() ==> e2.tensor_op_cache@[j]
                == e1.tensor_op_cache@[j],
    ensures
        forall|i: int|
            0 <= i < e1.nodes@.len() ==> #[trigger] node_wf(e2.nodes@, e2.tensors@.len(), i),
        forall|t: int|
            0 <= t < e2.tensors@.len() ==> #[trigger] tensor_wf(e2.nodes@, e2.tensors@, t),
        forall|j: int|
            0 <= j < e1.scratch_data_cache@.len() ==> #[trigger] scratch_data_entry_wf(
                e2.nodes@,
                e2.scratch_data_cache@[j],
            ),
        forall|j: int|
            0 <= j < e1.scratch_op_cache@.len() ==> #[trigger] scratch_op_entry_wf(
                e2.nodes@,
                e2.scratch_op_cache@[j],
            ),
        forall|j: int|
            0 <= j < e1.tensor_children@.len() ==> #[trigger] child_entry_wf(
                e2.nodes@,
                e2.tensor_children@[j],
            ),
        forall|j: int|
            0 <= j < e1.tensor_op_cache@.len() ==> #[trigger] tensor_op_entry_wf(
                e2.nodes@,
                e2.tensors@,
                e2.tensor_op_cache@[j],
            ),
{
    assert forall|i: int|
        0 <= i < e1.nodes@.len() implies #[trigger] node_wf(e2.nodes@, e2.tensors@.len(), i) by {
        assert(node_wf(e1.nodes@, e1.tensors@.len(), i));
        lemma_node_wf_extend(e1.nodes@, e2.nodes@, e1.tensors@.len(), e2.tensors@.len(), i);
    }
    assert forall|t: int|
        0 <= t < e2.tensors@.len() implies #[trigger] tensor_wf(e2.nodes@, e2.tensors@, t) by {
        assert(tensor_wf(e1.nodes@, e1.tensors@, t));
    }
    assert forall|j: int|
        0 <= j < e1.scratch_data_cache@.len() implies #[trigger] scratch_data_entry_wf(
        e2.nodes@,
        e2.scratch_data_cache@[j],
    ) by {
        assert(scratch_data_entry_wf(e1.nodes@, e1.scratch_data_cache@[j]));
    }
    assert forall|j: int|
        0 <= j < e1.scratch_op_cache@.len() implies #[trigger] scratch_op_entry_wf(
        e2.nodes@,
        e2.scratch_op_cache@[j],
    ) by {
        assert(scratch_op_entry_wf(e1.nodes@, e1.scratch_op_cache@[j]));
    }
    assert forall|j: int|
        0 <= j < e1.tensor_children@.len() implies #[trigger] child_entry_wf(
        e2.nodes@,
        e2.tensor_children@[j],
    ) by {
        assert(child_entry_wf(e1.nodes@, e1.tensor_children@[j]));
    }
    assert forall|j: int|
        0 <= j < e1.tensor_op_cache@.len() implies #[trigger] tensor_op_entry_wf(
        e2.nodes@,
        e2.tensors@,
        e2.tensor_op_cache@[j],
    ) by {
        assert(tensor_op_entry_wf(e1.nodes@, e1.tensors@, e1.tensor_op_cache@[j]));
    }
}

/// The whole invariant survives appending one well-formed node together with
/// at most one new cache or lineage record for it, provided the new record's
/// key is absent from the old cache (data value, normalized key, or owner
/// plus operation, respectively).
pub proof fn lemma_wf_one_append(e1: Engine, e2: Engine)
    requires
        e1.wf(),
        e2.nodes@.len() == e1.nodes@.len() + 1,
        forall|j: int| 0 <= j < e1.nodes@.len() ==> e2.nodes@[j] == e1.nodes@[j],
        node_wf(e2.nodes@, e2.tensors@.len(), e1.nodes@.len() as int),
        e2.tensors@ == e1.tensors@,
        e2.tensor_op_cache@ == e1.tensor_op_cache@,
        e2.scratch_data_cache@ == e1.scratch_data_cache@ || {
            &&& e2.scratch_data_cache@.len() == e1.scratch_data_cache@.len() + 1
            &&& (forall|j: int|
                0 <= j < e1.scratch_data_cache@.len() ==> e2.scratch_data_cache@[j]
                    == e1.scratch_data_cache@[j])
            &&& scratch_data_entry_wf(e2.nodes@, e2.scratch_data_cache@.last())
            &&& (forall|j: int|
                0 <= j < e1.scratch_data_cache@.len()
                    ==> #[trigger] e1.scratch_data_cache@[j].data@
                    != e2.scratch_data_cache@.last().data@)
        },
        e2.scratch_op_cache@ == e1.scratch_op_cache@ || {
            &&& e2.scratch_op_cache@.len() == e1.scratch_op_cache@.len() + 1
            &&& (forall|j: int|
                0 <= j < e1.scratch_op_cache@.len() ==> e2.scratch_op_cache@[j]
                    == e1.scratch_op_cache@[j])
            &&& scratch_op_entry_wf(e2.nodes@, e2.scratch_op_cache@.last())
            &&& (forall|j: int|
                0 <= j < e1.scratch_op_cache@.len() ==> #[trigger] e1.scratch_op_cache@[j].key
                    != e2.scratch_op_cache@.last().key)
        },
        e2.tensor_children@ == e1.tensor_children@ || {
            &&& e2.tensor_children@.len() == e1.tensor_children@.len() + 1
            &&& (forall|j: int|
                0 <= j < e1.tensor_children@.len() ==> e2.tensor_children@[j]
                    == e1.tensor_children@[j])
            &&& child_entry_wf(e2.nodes@, e2.tensor_children@.last())
            &&& (forall|j: int|
                0 <= j < e1.tensor_children@.len() && #[trigger] e1.tensor_children@[j].owner
                    == e2.tensor_children@.last().owner ==> !same_binary_op(
                    e2.nodes@[e1.tensor_children@[j].handle.0 as int].operation,
                    e2.nodes@[e2.tensor_children@.last().handle.0 as int].operation,
                ))
        },
    ensures
        e2.wf(),
{
    lemma_wf_extend(e1, e2);
    let len1 = e1.nodes@.len() as int;
    assert forall|i: int|
        0 <= i < e2.nodes@.len() implies #[trigger] node_wf(e2.nodes@, e2.tensors@.len(), i) by {
        if i < len1 {
            assert(node_wf(e1.nodes@, e1.tensors@.len(), i));
            lemma_node_wf_extend(e1.nodes@, e2.nodes@, e1.tensors@.len(), e2.tensors@.len(), i);
        }
    }
    assert forall|j: int, k: int|
        0 <= j < k < e2.scratch_data_cache@.len() implies #[trigger] e2.scratch_data_cache@[j].data@
        != #[trigger] e2.scratch_data_cache@[k].data@ by {
        if k < e1.scratch_data_cache@.len() {
            assert(e1.scratch_data_cache@[j].data@ != e1.scratch_data_cache@[k].data@);
        }
    }
    assert forall|j: int, k: int|
        0 <= j < k < e2.scratch_op_cache@.len() implies #[trigger] e2.scratch_op_cache@[j].key
        != #[trigger] e2.scratch_op_cache@[k].key by {
        if k < e1.scratch_op_cache@.len() {
            assert(e1.scratch_op_cache@[j].key != e1.scratch_op_cache@[k].key);
        }
    }
    assert forall|j: int, k: int|
        0 <= j < k < e2.tensor_children@.len() && #[trigger] e2.tensor_children@[j].owner
            == #[trigger] e2.tensor_children@[k].owner implies !same_binary_op(
        e2.nodes@[e2.tensor_children@[j].handle.0 as int].operation,
        e2.nodes@[e2.tensor_children@[k].handle.0 as int].operation,
    ) by {
        assert(child_entry_wf(e1.nodes@, e1.tensor_children@[j]));
        if k < e1.tensor_children@.len() {
            assert(child_entry_wf(e1.nodes@, e1.tensor_children@[k]));
            assert(!same_binary_op(
                e1.nodes@[e1.tensor_children@[j].handle.0 as int].operation,
                e1.nodes@[e1.tensor_children@[k].handle.0 as int].operation,
            ));
        }
    }
}

/// The whole invariant survives overwriting one registry slot in place, as a
/// memset rewrite does, provided the slot keeps its size and owner, was not a
/// binary operation node (so it cannot appear in a lineage record), is not
/// any tensor's value buffer, and is itself well formed afterwards.
pub proof fn lemma_wf_update_slot(e1: Engine, e2: Engine, a: int)
    requires
        e1.wf(),
        0 <= a < e1.nodes@.len(),
        e2.nodes@.len() == e1.nodes@.len(),
        forall|j: int| 0 <= j < e1.nodes@.len() && j != a ==> e2.nodes@[j] == e1.nodes@[j],
        e2.nodes@[a].size == e1.nodes@[a].size,
        e2.nodes@[a].kind == e1.nodes@[a].kind,
        e1.nodes@[a].kind is TensorData,
        !crate::node::is_binary_op(e1.nodes@[a].operation),
        !crate::node::is_binary_op(e2.nodes@[a].operation),
        forall|t: int| 0 <= t < e1.tensors@.len() ==> e1.tensors@[t].buffer.0 != a,
        node_wf(e2.nodes@, e2.tensors@.len(), a),
        e2.tensors@ == e1.tensors@,
        e2.scratch_data_cache@ == e1.scratch_data_cache@,
        e2.scratch_op_cache@ == e1.scratch_op_cache@,
        e2.tensor_children@ == e1.tensor_children@,
        e2.tensor_op_cache@ == e1.tensor_op_cache@,
    ensures
        e2.wf(),
{
    assert forall|x: int|
        0 <= x < e1.nodes@.len() implies #[trigger] e2.nodes@[x].size == e1.nodes@[x].size
            && e2.nodes@[x].kind == e1.nodes@[x].kind by {}
    assert forall|i: int|
        0 <= i < e2.nodes@.len() implies #[trigger] node_wf(e2.nodes@, e2.tensors@.len(), i) by {
        if i != a {
            assert(node_wf(e1.nodes@, e1.tensors@.len(), i));
        }
    }
    assert forall|t: int|
        0 <= t < e2.tensors@.len() implies #[trigger] tensor_wf(e2.nodes@, e2.tensors@, t) by {
        assert(tensor_wf(e1.nodes@, e1.tensors@, t));
        assert(e1.tensors@[t].buffer.0 != a);
    }
    assert forall|j: int|
        0 <= j < e2.scratch_data_cache@.len() implies #[trigger] scratch_data_entry_wf(
        e2.nodes@,
        e2.scratch_data_cache@[j],
    ) by {
        assert(scratch_data_entry_wf(e1.nodes@, e1.scratch_data_cache@[j]));
    }
    assert forall|j: int|
        0 <= j < e2.scratch_op_cache@.len() implies #[trigger] scratch_op_entry_wf(
        e2.nodes@,
        e2.scratch_op_cache@[j],
    ) by {
        assert(scratch_op_entry_wf(e1.nodes@, e1.scratch_op_cache@[j]));
    }
    assert forall|j: int|
        0 <= j < e2.tensor_children@.len() implies #[trigger] child_entry_wf(
        e2.nodes@,
        e2.tensor_children@[j],
    ) by {
        assert(child_entry_wf(e1.nodes@, e1.tensor_children@[j]));
    }
    assert forall|j: int|
        0 <= j < e2.tensor_op_cache@.len() implies #[trigger] tensor_op_entry_wf(
        e2.nodes@,
        e2.tensors@,
        e2.tensor_op_cache@[j],
    ) by {
        assert(tensor_op_entry_wf(e1.nodes@, e1.tensors@, e1.tensor_op_cache@[j]));
        let e = e1.tensor_op_cache@[j];
        assert(tensor_wf(e1.nodes@, e1.tensors@, e.tensor.0 as int));
        assert(e1.tensors@[e.tensor.0 as int].buffer.0 != a);
    }
    assert forall|j: int, k: int|
        0 <= j < k < e2.tensor_children@.len() && #[trigger] e2.tensor_children@[j].owner
            == #[trigger] e2.tensor_children@[k].owner implies !crate::node::same_binary_op(
        e2.nodes@[e2.tensor_children@[j].handle.0 as int].operation,
        e2.nodes@[e2.tensor_children@[k].handle.0 as int].operation,
    ) by {
        assert(child_entry_wf(e1.nodes@, e1.tensor_children@[j]));
        assert(child_entry_wf(e1.nodes@, e1.tensor_children@[k]));
        assert(e1.tensor_children@[j].handle.0 != a);
        assert(e1.tensor_children@[k].handle.0 != a);
    }
}

/// A backend that fits a registry still fits it after the registry grows,
/// provided existing nodes keep their sizes, realization marks are never
/// added, and the new nodes are unrealized: the backend cannot already hold a
/// buffer under a fresh identity.
pub proof fn lemma_fits_after_grow(e1: Engine, e2: Engine, m: Map<int, Seq<u32>>)
    requires
        e1.backend_fits(m),
        e2.nodes@.len() >= e1.nodes@.len(),
        e2.nodes@.len() <= usize::MAX,
        forall|j: int|
            0 <= j < e1.nodes@.len() ==> (#[trigger] e2.nodes@[j]).size == e1.nodes@[j].size,
        forall|j: int|
            0 <= j < e1.nodes@.len() && (#[trigger] e2.nodes@[j]).device_buffer is Some
                ==> e1.nodes@[j].device_buffer is Some,
        forall|j: int|
            e1.nodes@.len() <= j < e2.nodes@.len() ==> (
            #[trigger] e2.nodes@[j]).device_buffer is None,
    ensures
        e2.backend_fits(m),
{
    assert forall|i: int|
        0 <= i < e2.nodes@.len() && #[trigger] m.dom().contains(i) implies m[i].len()
        == e2.nodes@[i].size by {
        assert(0 <= i < e1.nodes@.len() || i == crate::handle::LAZYBUFFER_HANDLE_NULL_ID as int);
    }
    assert forall|i: int|
        0 <= i < e2.nodes@.len() && (#[trigger] e2.nodes@[i].device_buffer) is Some
        implies m.dom().contains(i) by {
        assert(i < e1.nodes@.len());
        assert(e1.nodes@[i].device_buffer is Some);
    }
}

/// Well-formedness of a node is stable when the registry grows and earlier
/// entries are untouched.
pub proof fn lemma_node_wf_extend(
    nodes1: Seq<LazyBuffer>,
    nodes2: Seq<LazyBuffer>,
    tc1: nat,
    tc2: nat,
    i: int,
)
    requires
        0 <= i < nodes1.len(),
        node_wf(nodes1, tc1, i),
        nodes1.len() <= nodes2.len(),
        tc1 <= tc2,
        forall|j: int| 0 <= j < nodes1.len() ==> nodes2[j] == nodes1[j],
    ensures
        node_wf(nodes2, tc2, i),
{
}

} // verus!
