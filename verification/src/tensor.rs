//! The tensor layer: a thin value type over a lazy-buffer handle, operator
//! application with tensor-level memoization, gradient pre-allocation, the
//! reverse-mode gradient walk, and the in-place training step.

use crate::backend::Backend;
use crate::engine::{
    child_entry_wf, scratch_data_entry_wf, scratch_op_entry_wf, tensor_op_entry_wf, tensor_wf,
    ChildEntry, Engine, TensorOpEntry,
};
use crate::handle::{BufferHandle, LazyBufferHandle, TensorId};
use crate::lazybuffer::binop_args_ok;
use crate::node::{
    is_binary_op, node_wf, op_operands, spec_tensor_key, tensor_key, CreationType, LazyBuffer,
    LazyOp, LazybufferType, OpKey,
};
use crate::schedule::RealizeError;
use vstd::prelude::*;

verus! {

/// A tensor value.  Tensors are registered in the engine's tensor table,
/// indexed by their identity, so the autograd pass can find a tensor from any
/// buffer it owns.  The table holds the authoritative copy; values held by
/// callers are snapshots.
#[derive(Debug, Copy, Clone)]
pub struct Tensor {
    /// Identity; always equals the tensor's index in the engine's table.
    pub id: TensorId,
    /// The lazy buffer holding the tensor's current value.
    pub buffer: LazyBufferHandle,
    /// The pre-allocated gradient accumulator, once `prealloc_gradients` or a
    /// backward pass has run.
    pub gradient: Option<LazyBufferHandle>,
    /// Whether backward passes propagate a gradient into this tensor.
    pub requires_grad: bool,
}

/// The identity the next registered tensor will receive: identities are
/// monotonic, and a tensor's identity is its table index.
pub fn get_next_tensor_id(engine: &Engine) -> (t: TensorId)
    ensures
        t.0 == engine.tensors@.len(),
{
    TensorId(engine.tensors.len())
}

/// What the tensor operators accept: a binary operation whose operands are
/// registered, equal-sized, tensor-owned buffers.
pub open spec fn tensor_op_req(e: Engine, op: LazyOp) -> bool {
    &&& is_binary_op(op)
    &&& binop_args_ok(e, op_operands(op).0, op_operands(op).1)
    &&& e.nodes@[op_operands(op).0.0 as int].kind is TensorData
    &&& e.nodes@[op_operands(op).1.0 as int].kind is TensorData
}

/// The tensor-op cache holds this construction key.
pub open spec fn tensor_op_hit(e: Engine, key: OpKey) -> bool {
    exists|j: int|
        0 <= j < e.tensor_op_cache@.len() && #[trigger] e.tensor_op_cache@[j].key == key
}

/// Look a construction key up in the tensor-op cache.
fn find_tensor_op(engine: &Engine, key: OpKey) -> (r: Option<TensorId>)
    ensures
        match r {
            Some(t) => exists|j: int|
                0 <= j < engine.tensor_op_cache@.len() && #[trigger] engine.tensor_op_cache@[j].key
                    == key && engine.tensor_op_cache@[j].tensor == t,
            None => !tensor_op_hit(*engine, key),
        },
{
    let mut j: usize = 0;
    while j < engine.tensor_op_cache.len()
        invariant
            j <= engine.tensor_op_cache@.len(),
            forall|k: int| 0 <= k < j ==> #[trigger] engine.tensor_op_cache@[k].key != key,
        decreases engine.tensor_op_cache@.len() - j,
    {
        if engine.tensor_op_cache[j].key == key {
            return Some(engine.tensor_op_cache[j].tensor);
        }
        j = j + 1;
    }
    None
}

impl Tensor {
    /// Number of registered tensors.
    pub fn storage_len(engine: &Engine) -> (n: usize)
        ensures
            n == engine.tensors@.len(),
    {
        engine.tensors.len()
    }

    /// Register a tensor over the given host data, participating in gradient
    /// propagation.
    pub fn new(engine: &mut Engine, data: Vec<u32>) -> (t: Tensor)
        requires
            old(engine).wf(),
        ensures
            final (engine).wf(),
            t == (Tensor {
                id: TensorId(old(engine).tensors@.len() as usize),
                buffer: LazyBufferHandle(old(engine).nodes@.len() as usize),
                gradient: None::<LazyBufferHandle>,
                requires_grad: true,
            }),
            tensor_created(*old(engine), *final (engine), t, data),
    {
        Tensor::create(engine, data, true)
    }

    /// Register a tensor over the given host data, excluded from gradient
    /// propagation.
    pub fn without_grad(engine: &mut Engine, data: Vec<u32>) -> (t: Tensor)
        requires
            old(engine).wf(),
        ensures
            final (engine).wf(),
            t == (Tensor {
                id: TensorId(old(engine).tensors@.len() as usize),
                buffer: LazyBufferHandle(old(engine).nodes@.len() as usize),
                gradient: None::<LazyBufferHandle>,
                requires_grad: false,
            }),
            tensor_created(*old(engine), *final (engine), t, data),
    {
        Tensor::create(engine, data, false)
    }

    /// Shared body of the two constructors: one creation node and one tensor
    /// table entry, owned by each other.
    fn create(engine: &mut Engine, data: Vec<u32>, requires_grad: bool) -> (t: Tensor)
        requires
            old(engine).wf(),
        ensures
            final (engine).wf(),
            t == (Tensor {
                id: TensorId(old(engine).tensors@.len() as usize),
                buffer: LazyBufferHandle(old(engine).nodes@.len() as usize),
                gradient: None::<LazyBufferHandle>,
                requires_grad: requires_grad,
            }),
            tensor_created(*old(engine), *final (engine), t, data),
    {
        let tid = TensorId(engine.tensors.len());
        let buffer_id = LazyBufferHandle(engine.nodes.len());
        let size = data.len();
        let node = LazyBuffer {
            id: buffer_id,
            kind: LazybufferType::TensorData(tid),
            size,
            operation: LazyOp::Creation(CreationType::RawData(data)),
            device_buffer: None,
        };
        let t = Tensor { id: tid, buffer: buffer_id, gradient: None, requires_grad };
        engine.nodes.push(node);
        engine.tensors.push(t);
        proof {
            lemma_wf_new_tensor(*old(engine), *engine);
        }
        t
    }
}

/// The owner of a tensor-owned node.
pub open spec fn owner_of(nodes: Seq<LazyBuffer>, h: LazyBufferHandle) -> TensorId
    recommends
        h.0 < nodes.len(),
        nodes[h.0 as int].kind is TensorData,
{
    match nodes[h.0 as int].kind {
        LazybufferType::TensorData(o) => o,
        LazybufferType::Scratch => arbitrary(),
    }
}

/// Two operations with one exact construction key are the same binary
/// operation.
proof fn lemma_tensor_key_same(op1: LazyOp, op2: LazyOp)
    requires
        spec_tensor_key(op1) is Some,
        spec_tensor_key(op1) == spec_tensor_key(op2),
    ensures
        crate::node::same_binary_op(op1, op2),
{
}

/// What applying a tensor operator guarantees.  Either the construction was
/// already memoized — then nothing changes and the first tensor produced for
/// it is returned — or one fresh node, tensor, lineage record and cache entry
/// are appended.
pub open spec fn op_applied(e1: Engine, e2: Engine, op: LazyOp, t: Tensor) -> bool {
    &&& t.id.0 < e2.tensors@.len()
    &&& e2.tensors@[t.id.0 as int] == t
    &&& t.buffer.0 < e2.nodes@.len()
    &&& crate::node::same_binary_op(e2.nodes@[t.buffer.0 as int].operation, op)
    &&& (e2.nodes@[t.buffer.0 as int].kind matches LazybufferType::TensorData(o) && o == t.id)
    &&& e2.nodes@[t.buffer.0 as int].size == e1.nodes@[op_operands(op).0.0 as int].size
    &&& e2.scratch_data_cache@ == e1.scratch_data_cache@
    &&& e2.scratch_op_cache@ == e1.scratch_op_cache@
    &&& (tensor_op_hit(e1, spec_tensor_key(op).unwrap()) ==> {
        &&& e2.nodes@ == e1.nodes@
        &&& e2.tensors@ == e1.tensors@
        &&& e2.tensor_children@ == e1.tensor_children@
        &&& e2.tensor_op_cache@ == e1.tensor_op_cache@
        &&& (forall|j: int|
            0 <= j < e1.tensor_op_cache@.len() && #[trigger] e1.tensor_op_cache@[j].key
                == spec_tensor_key(op).unwrap() ==> t.id == e1.tensor_op_cache@[j].tensor && t
                == e1.tensors@[e1.tensor_op_cache@[j].tensor.0 as int])
    })
    &&& (!tensor_op_hit(e1, spec_tensor_key(op).unwrap()) ==> {
        &&& t.id.0 == e1.tensors@.len()
        &&& t.buffer.0 == e1.nodes@.len()
        &&& t.gradient is None
        &&& t.requires_grad == (e1.tensors@[owner_of(e1.nodes@, op_operands(op).0).0 as int].requires_grad
            || e1.tensors@[owner_of(e1.nodes@, op_operands(op).1).0 as int].requires_grad)
        &&& e2.nodes@.len() == e1.nodes@.len() + 1
        &&& (forall|j: int| 0 <= j < e1.nodes@.len() ==> e2.nodes@[j] == e1.nodes@[j])
        &&& e2.nodes@[t.buffer.0 as int].operation == op
        &&& e2.nodes@[t.buffer.0 as int].device_buffer is None
        &&& e2.tensors@.len() == e1.tensors@.len() + 1
        &&& (forall|j: int| 0 <= j < e1.tensors@.len() ==> e2.tensors@[j] == e1.tensors@[j])
        &&& e2.tensor_children@.len() == e1.tensor_children@.len() + 1
        &&& (forall|j: int|
            0 <= j < e1.tensor_children@.len() ==> e2.tensor_children@[j]
                == e1.tensor_children@[j])
        &&& e2.tensor_op_cache@.len() == e1.tensor_op_cache@.len() + 1
        &&& (forall|j: int|
            0 <= j < e1.tensor_op_cache@.len() ==> e2.tensor_op_cache@[j]
                == e1.tensor_op_cache@[j])
        &&& e2.tensor_op_cache@.last().key == spec_tensor_key(op).unwrap()
        &&& e2.tensor_op_cache@.last().tensor == t.id
    })
}

impl Tensor {
    /// Apply a binary operator: consult the tensor-level cache first (the
    /// same construction over the same operand handles yields the first
    /// tensor it produced, and the registry does not grow); otherwise
    /// register a fresh operation node and tensor.  The new tensor
    /// participates in gradient propagation exactly when either operand's
    /// owner does.
    pub fn from_operation(engine: &mut Engine, op: LazyOp) -> (t: Tensor)
        requires
            old(engine).wf(),
            tensor_op_req(*old(engine), op),
        ensures
            final (engine).wf(),
            op_applied(*old(engine), *final (engine), op, t),
    {
        let (a, b) = crate::lazybuffer::operands_of(&op);
        let key = match tensor_key(&op) {
            Some(k) => k,
            None => {
                proof {
                    assert(false);
                }
                OpKey { tag: 0u8, x: 0usize, y: 0usize }
            },
        };
        let cached = find_tensor_op(engine, key);
        match cached {
            Some(tid) => {
                proof {
                    let j = choose|j: int|
                        0 <= j < engine.tensor_op_cache@.len()
                            && #[trigger] engine.tensor_op_cache@[j].key == key
                            && engine.tensor_op_cache@[j].tensor == tid;
                    assert(tensor_op_entry_wf(engine.nodes@, engine.tensors@, engine.tensor_op_cache@[j]));
                    assert(tensor_wf(engine.nodes@, engine.tensors@, tid.0 as int));
                    let bh = engine.tensors@[tid.0 as int].buffer;
                    lemma_tensor_key_same(op, engine.nodes@[bh.0 as int].operation);
                    assert(node_wf(engine.nodes@, engine.tensors@.len(), bh.0 as int));
                    assert forall|k: int|
                        0 <= k < engine.tensor_op_cache@.len()
                            && #[trigger] engine.tensor_op_cache@[k].key == key implies tid
                        == engine.tensor_op_cache@[k].tensor by {
                        if k != j {
                            assert(engine.tensor_op_cache@[j].key != engine.tensor_op_cache@[k].key);
                        }
                    }
                }
                engine.tensors[tid.0]
            },
            None => {
                let tid = TensorId(engine.tensors.len());
                let buffer_id = LazyBufferHandle(engine.nodes.len());
                proof {
                    assert(node_wf(engine.nodes@, engine.tensors@.len(), a.0 as int));
                    assert(node_wf(engine.nodes@, engine.tensors@.len(), b.0 as int));
                }
                let ta = match engine.nodes[a.0].kind {
                    LazybufferType::TensorData(o) => o,
                    LazybufferType::Scratch => {
                        proof {
                            assert(false);
                        }
                        TensorId(0)
                    },
                };
                let tb = match engine.nodes[b.0].kind {
                    LazybufferType::TensorData(o) => o,
                    LazybufferType::Scratch => {
                        proof {
                            assert(false);
                        }
                        TensorId(0)
                    },
                };
                let rg = engine.tensors[ta.0].requires_grad || engine.tensors[tb.0].requires_grad;
                let size = engine.nodes[a.0].size;
                let node = LazyBuffer {
                    id: buffer_id,
                    kind: LazybufferType::TensorData(tid),
                    size,
                    operation: op,
                    device_buffer: None,
                };
                let t = Tensor { id: tid, buffer: buffer_id, gradient: None, requires_grad: rg };
                engine.nodes.push(node);
                engine.tensors.push(t);
                engine.tensor_children.push(ChildEntry { owner: tid, handle: buffer_id });
                engine.tensor_op_cache.push(TensorOpEntry { key, tensor: tid });
                proof {
                    lemma_wf_new_op_tensor(*old(engine), *engine);
                }
                t
            },
        }
    }

    /// Element-wise addition of two tensors, as a new lazy tensor.
    pub fn add(&self, other: &Tensor, engine: &mut Engine) -> (t: Tensor)
        requires
            old(engine).wf(),
            tensor_op_req(*old(engine), LazyOp::Add(self.buffer, other.buffer)),
        ensures
            final (engine).wf(),
            op_applied(
                *old(engine),
                *final (engine),
                LazyOp::Add(self.buffer, other.buffer),
                t,
            ),
    {
        Tensor::from_operation(engine, LazyOp::Add(self.buffer, other.buffer))
    }

    /// Element-wise subtraction of two tensors, as a new lazy tensor.
    pub fn sub(&self, other: &Tensor, engine: &mut Engine) -> (t: Tensor)
        requires
            old(engine).wf(),
            tensor_op_req(*old(engine), LazyOp::Subtract(self.buffer, other.buffer)),
        ensures
            final (engine).wf(),
            op_applied(
                *old(engine),
                *final (engine),
                LazyOp::Subtract(self.buffer, other.buffer),
                t,
            ),
    {
        Tensor::from_operation(engine, LazyOp::Subtract(self.buffer, other.buffer))
    }

    /// Element-wise multiplication of two tensors, as a new lazy tensor.
    pub fn mul(&self, other: &Tensor, engine: &mut Engine) -> (t: Tensor)
        requires
            old(engine).wf(),
            tensor_op_req(*old(engine), LazyOp::Multiply(self.buffer, other.buffer)),
        ensures
            final (engine).wf(),
            op_applied(
                *old(engine),
                *final (engine),
                LazyOp::Multiply(self.buffer, other.buffer),
                t,
            ),
    {
        Tensor::from_operation(engine, LazyOp::Multiply(self.buffer, other.buffer))
    }

    /// Element-wise division of two tensors, as a new lazy tensor.
    pub fn div(&self, other: &Tensor, engine: &mut Engine) -> (t: Tensor)
        requires
            old(engine).wf(),
            tensor_op_req(*old(engine), LazyOp::Divide(self.buffer, other.buffer)),
        ensures
            final (engine).wf(),
            op_applied(
                *old(engine),
                *final (engine),
                LazyOp::Divide(self.buffer, other.buffer),
                t,
            ),
    {
        Tensor::from_operation(engine, LazyOp::Divide(self.buffer, other.buffer))
    }
}

/// The engine invariant survives appending one operation tensor: a binary
/// node, its table entry, its lineage record, and its memo entry, all fresh.
proof fn lemma_wf_new_op_tensor(e1: Engine, e2: Engine)
    requires
        e1.wf(),
        e2.nodes@.len() == e1.nodes@.len() + 1,
        forall|j: int| 0 <= j < e1.nodes@.len() ==> e2.nodes@[j] == e1.nodes@[j],
        e2.nodes@.last().id.0 == e1.nodes@.len(),
        (e2.nodes@.last().kind matches LazybufferType::TensorData(o) && o.0 == e1.tensors@.len()),
        e2.nodes@.last().device_buffer is None,
        is_binary_op(e2.nodes@.last().operation),
        op_operands(e2.nodes@.last().operation).0.0 < e1.nodes@.len(),
        op_operands(e2.nodes@.last().operation).1.0 < e1.nodes@.len(),
        e1.nodes@[op_operands(e2.nodes@.last().operation).0.0 as int].size
            == e2.nodes@.last().size,
        e1.nodes@[op_operands(e2.nodes@.last().operation).1.0 as int].size
            == e2.nodes@.last().size,
        e1.nodes@[op_operands(e2.nodes@.last().operation).0.0 as int].kind is TensorData,
        e1.nodes@[op_operands(e2.nodes@.last().operation).1.0 as int].kind is TensorData,
        e2.tensors@.len() == e1.tensors@.len() + 1,
        forall|j: int| 0 <= j < e1.tensors@.len() ==> e2.tensors@[j] == e1.tensors@[j],
        e2.tensors@.last().id.0 == e1.tensors@.len(),
        e2.tensors@.last().buffer.0 == e1.nodes@.len(),
        e2.tensors@.last().gradient is None,
        e2.tensor_children@.len() == e1.tensor_children@.len() + 1,
        forall|j: int|
            0 <= j < e1.tensor_children@.len() ==> e2.tensor_children@[j]
                == e1.tensor_children@[j],
        e2.tensor_children@.last().owner.0 == e1.tensors@.len(),
        e2.tensor_children@.last().handle.0 == e1.nodes@.len(),
        e2.tensor_op_cache@.len() == e1.tensor_op_cache@.len() + 1,
        forall|j: int|
            0 <= j < e1.tensor_op_cache@.len() ==> e2.tensor_op_cache@[j]
                == e1.tensor_op_cache@[j],
        e2.tensor_op_cache@.last().tensor.0 == e1.tensors@.len(),
        spec_tensor_key(e2.nodes@.last().operation) == Some(e2.tensor_op_cache@.last().key),
        forall|j: int|
            0 <= j < e1.tensor_op_cache@.len() ==> #[trigger] e1.tensor_op_cache@[j].key
                != e2.tensor_op_cache@.last().key,
        e2.scratch_data_cache@ == e1.scratch_data_cache@,
        e2.scratch_op_cache@ == e1.scratch_op_cache@,
    ensures
        e2.wf(),
{
    let len1 = e1.nodes@.len() as int;
    let tc1 = e1.tensors@.len() as int;
    assert forall|i: int|
        0 <= i < e2.nodes@.len() implies #[trigger] node_wf(e2.nodes@, e2.tensors@.len(), i) by {
        if i < len1 {
            assert(node_wf(e1.nodes@, e1.tensors@.len(), i));
            crate::engine::lemma_node_wf_extend(
                e1.nodes@,
                e2.nodes@,
                e1.tensors@.len(),
                e2.tensors@.len(),
                i,
            );
        }
    }
    assert forall|t: int|
        0 <= t < e2.tensors@.len() implies #[trigger] tensor_wf(e2.nodes@, e2.tensors@, t) by {
        if t < tc1 {
            assert(tensor_wf(e1.nodes@, e1.tensors@, t));
        } else {
            assert(node_wf(e1.nodes@, e1.tensors@.len(), op_operands(
                e2.nodes@.last().operation,
            ).0.0 as int));
            assert(node_wf(e1.nodes@, e1.tensors@.len(), op_operands(
                e2.nodes@.last().operation,
            ).1.0 as int));
        }
    }
    assert forall|j: int|
        0 <= j < e2.scratch_data_cache@.len() implies #[trigger] scratch_data_entry_wf(
        e2.nodes@,
        e2.scratch_data_cache@[j],
    ) by {
        assert(scratch_data_entry_wf(e1.nodes@, e1.scratch_data_cache@[j]));
    }
    assert forall|j: int|
        0 <= j < e2.scratch_op_cache@.len() implies #[trigger] scratch_op_entry_wf(
        e2.nodes@,
        e2.scratch_op_cache@[j],
    ) by {
        assert(scratch_op_entry_wf(e1.nodes@, e1.scratch_op_cache@[j]));
    }
    assert forall|j: int|
        0 <= j < e2.tensor_children@.len() implies #[trigger] child_entry_wf(
        e2.nodes@,
        e2.tensor_children@[j],
    ) by {
        if j < e1.tensor_children@.len() {
            assert(child_entry_wf(e1.nodes@, e1.tensor_children@[j]));
        }
    }
    assert forall|j: int, k: int|
        0 <= j < k < e2.tensor_children@.len() && #[trigger] e2.tensor_children@[j].owner
            == #[trigger] e2.tensor_children@[k].owner implies !crate::node::same_binary_op(
        e2.nodes@[e2.tensor_children@[j].handle.0 as int].operation,
        e2.nodes@[e2.tensor_children@[k].handle.0 as int].operation,
    ) by {
        assert(child_entry_wf(e1.nodes@, e1.tensor_children@[j]));
        if k < e1.tensor_children@.len() {
            assert(child_entry_wf(e1.nodes@, e1.tensor_children@[k]));
        } else {
            assert(node_wf(e1.nodes@, e1.tensors@.len(), e1.tensor_children@[j].handle.0 as int));
        }
    }
    assert forall|j: int|
        0 <= j < e2.tensor_op_cache@.len() implies #[trigger] tensor_op_entry_wf(
        e2.nodes@,
        e2.tensors@,
        e2.tensor_op_cache@[j],
    ) by {
        if j < e1.tensor_op_cache@.len() {
            assert(tensor_op_entry_wf(e1.nodes@, e1.tensors@, e1.tensor_op_cache@[j]));
            assert(e2.tensors@[e1.tensor_op_cache@[j].tensor.0 as int]
                == e1.tensors@[e1.tensor_op_cache@[j].tensor.0 as int]);
        }
    }
    assert forall|j: int, k: int|
        0 <= j < k < e2.tensor_op_cache@.len() implies #[trigger] e2.tensor_op_cache@[j].key
        != #[trigger] e2.tensor_op_cache@[k].key by {
        if k < e1.tensor_op_cache@.len() {
            assert(e1.tensor_op_cache@[j].key != e1.tensor_op_cache@[k].key);
        }
    }
}

/// The tensor-table frame that gradient pre-allocation and the backward pass
/// guarantee: the table keeps its length, every tensor keeps its identity,
/// value buffer and flag, and an accumulator, once assigned, keeps its handle
/// for good.
pub open spec fn gradients_preserved(e1: Engine, e2: Engine) -> bool {
    &&& e2.tensors@.len() == e1.tensors@.len()
    &&& forall|t: int|
        0 <= t < e1.tensors@.len() ==> {
            &&& (#[trigger] e2.tensors@[t]).id == e1.tensors@[t].id
            &&& e2.tensors@[t].buffer == e1.tensors@[t].buffer
            &&& e2.tensors@[t].requires_grad == e1.tensors@[t].requires_grad
            &&& (e1.tensors@[t].gradient matches Some(g) ==> e2.tensors@[t].gradient == Some(g))
            &&& (!e1.tensors@[t].requires_grad ==> e2.tensors@[t].gradient
                == e1.tensors@[t].gradient)
        }
}

impl Tensor {
    /// Give every gradient-requiring tensor a zero-filled, realized gradient
    /// accumulator, once: a tensor that already has one keeps it (the
    /// accumulator's identity is stable across backward passes).
    pub fn prealloc_gradients<B: Backend>(engine: &mut Engine, backend: &mut B)
        requires
            old(engine).wf(),
            old(engine).backend_fits(old(backend).contents()),
        ensures
            final (engine).wf(),
            final (engine).backend_fits(final (backend).contents()),
            gradients_preserved(*old(engine), *final (engine)),
            forall|t: int|
                0 <= t < old(engine).tensors@.len() && old(engine).tensors@[t].requires_grad
                    ==> (#[trigger] final (engine).tensors@[t]).gradient is Some,
            final (engine).nodes@.len() >= old(engine).nodes@.len(),
            forall|j: int| 0 <= j < old(engine).nodes@.len() ==> final (engine).nodes@[j] == old(engine).nodes@[j],
            final (engine).caches_unchanged(*old(engine)),
            forall|id: int|
                0 <= id < old(engine).nodes@.len() && #[trigger] old(backend).contents().dom().contains(id) ==> final (backend).contents().dom().contains(id)
                    && final (backend).contents()[id] == old(backend).contents()[id],
            forall|t: int|
                0 <= t < old(engine).tensors@.len() && old(engine).tensors@[t].requires_grad
                    && old(engine).tensors@[t].gradient is None ==> {
                    let g = (#[trigger] final (engine).tensors@[t]).gradient.unwrap().0 as int;
                    &&& final (engine).nodes@[g].device_buffer is Some
                    &&& final (backend).contents().dom().contains(g)
                    &&& final (backend).contents()[g] == crate::backend::zero_words(
                        final (engine).nodes@[g].size as nat,
                    )
                },
    {
        let tensor_count = engine.tensors.len();
        let mut t: usize = 0;
        while t < tensor_count
            invariant
                engine.wf(),
                engine.backend_fits(backend.contents()),
                tensor_count == old(engine).tensors@.len(),
                t <= tensor_count,
                gradients_preserved(*old(engine), *engine),
                forall|tt: int|
                    0 <= tt < t && old(engine).tensors@[tt].requires_grad ==> (
                    #[trigger] engine.tensors@[tt]).gradient is Some,
                engine.nodes@.len() >= old(engine).nodes@.len(),
                forall|j: int|
                    0 <= j < old(engine).nodes@.len() ==> engine.nodes@[j] == old(engine).nodes@[j],
                engine.caches_unchanged(*old(engine)),
                forall|id: int|
                    0 <= id < old(engine).nodes@.len() && #[trigger] old(backend).contents().dom().contains(id) ==> backend.contents().dom().contains(id)
                        && backend.contents()[id] == old(backend).contents()[id],
                forall|tt: int|
                    0 <= tt < tensor_count && old(engine).tensors@[tt].requires_grad && old(engine).tensors@[tt].gradient is None && (
                    #[trigger] engine.tensors@[tt]).gradient is Some ==> {
                        let g = engine.tensors@[tt].gradient.unwrap().0 as int;
                        &&& engine.nodes@[g].device_buffer is Some
                        &&& backend.contents().dom().contains(g)
                        &&& backend.contents()[g] == crate::backend::zero_words(
                            engine.nodes@[g].size as nat,
                        )
                    },
            decreases tensor_count - t,
        {
            let needs = engine.tensors[t].requires_grad && engine.tensors[t].gradient.is_none();
            if needs {
                proof {
                    assert(tensor_wf(engine.nodes@, engine.tensors@, t as int));
                }
                let ghost e0 = *engine;
                let vb = engine.tensors[t].buffer;
                let size = engine.nodes[vb.0].size;
                let zeros = crate::schedule::make_words(0u32, size);
                let g = LazyBuffer::new(engine, TensorId(t), zeros);
                let ghost e_mid = *engine;
                let tref = &mut engine.tensors[t];
                tref.gradient = Some(g);
                let node_total = engine.nodes.len();
                proof {
                    lemma_wf_set_gradient(e_mid, *engine, t as int, g);
                    assert forall|i: int|
                        0 <= i < engine.nodes@.len() && #[trigger] backend.contents().dom().contains(
                            i,
                        ) implies backend.contents()[i].len() == engine.nodes@[i].size by {
                        if i >= e0.nodes@.len() {
                            assert(e0.backend_fits(backend.contents()));
                            assert(i < e0.nodes@.len() || i
                                == crate::handle::LAZYBUFFER_HANDLE_NULL_ID as int);
                            assert(node_total <= usize::MAX);
                        }
                    }
                    assert forall|i: int|
                        0 <= i < engine.nodes@.len()
                            && (#[trigger] engine.nodes@[i].device_buffer) is Some
                        implies backend.contents().dom().contains(i) by {
                        if i < e0.nodes@.len() {
                            assert(e0.backend_fits(backend.contents()));
                            assert(engine.nodes@[i] == e0.nodes@[i]);
                        }
                    }
                    assert(engine.backend_fits(backend.contents()));
                }
                let ghost e_set = *engine;
                let ghost m_set = backend.contents();
                let r = g.realize(engine, backend);
                proof {
                    crate::schedule::lemma_creation_no_cycle(e_set.nodes@, g.0 as int);
                }
                match r {
                    Ok(()) => {},
                    Err(_) => {
                        proof {
                            assert(false);
                        }
                    },
                }
                proof {
                    crate::schedule::lemma_reaches_self(e_set.nodes@, g.0 as int);
                    assert(engine.nodes@[g.0 as int] == crate::schedule::committed_node(
                        e_set.nodes@[g.0 as int],
                        g.0 as int,
                    ));
                    assert forall|j: int|
                        0 <= j < e_set.nodes@.len() && j != g.0 as int
                        implies engine.nodes@[j] == e_set.nodes@[j] by {
                        assert(!crate::schedule::reaches(e_set.nodes@, g.0 as int, j));
                    }
                    assert forall|id: int|
                        0 <= id < old(engine).nodes@.len() && #[trigger] old(backend).contents().dom().contains(id) implies backend.contents().dom().contains(
                        id,
                    ) && backend.contents()[id] == old(backend).contents()[id] by {
                        assert(g.0 as int == e_mid.nodes@.len() - 1);
                        assert(id != g.0 as int);
                        assert(!crate::schedule::reaches(e_set.nodes@, g.0 as int, id));
                        assert(m_set.dom().contains(id));
                        assert(m_set[id] == old(backend).contents()[id]);
                        assert(backend.contents().dom().contains(id));
                        assert(backend.contents()[id] == m_set[id]);
                    }
                    assert forall|tt: int|
                        0 <= tt < tensor_count && old(engine).tensors@[tt].requires_grad && old(engine).tensors@[tt].gradient is None && (
                        #[trigger] engine.tensors@[tt]).gradient is Some implies {
                        let gg = engine.tensors@[tt].gradient.unwrap().0 as int;
                        &&& engine.nodes@[gg].device_buffer is Some
                        &&& backend.contents().dom().contains(gg)
                        &&& backend.contents()[gg] == crate::backend::zero_words(
                            engine.nodes@[gg].size as nat,
                        )
                    } by {
                        let gg = engine.tensors@[tt].gradient.unwrap().0 as int;
                        if tt != t as int {
                            assert(e_set.tensors@[tt] == e0.tensors@[tt]);
                            assert(e0.tensors@[tt].gradient is Some);
                            assert(tensor_wf(e0.nodes@, e0.tensors@, tt));
                            assert(0 <= gg < e0.nodes@.len());
                            assert(e_set.nodes@[gg] == e0.nodes@[gg]);
                            assert(e0.nodes@[gg].device_buffer is Some);
                            assert(!crate::schedule::reaches(e_set.nodes@, g.0 as int, gg));
                            assert(engine.nodes@[gg] == e_set.nodes@[gg]);
                            assert(m_set.dom().contains(gg));
                            assert(backend.contents()[gg] == m_set[gg]);
                        } else {
                            assert(gg == g.0 as int);
                            assert(crate::schedule::reaches(e_set.nodes@, g.0 as int, gg));
                            assert(crate::schedule::node_result_ok::<B>(
                                e_set.nodes@,
                                m_set,
                                backend.contents(),
                                gg,
                            ));
                            assert(e_set.nodes@[gg].device_buffer is None);
                            assert(backend.contents()[gg] == zeros@);
                            assert(zeros@ =~= crate::backend::zero_words(
                                engine.nodes@[gg].size as nat,
                            ));
                        }
                    }
                }
            }
            t = t + 1;
        }
    }
}

impl Tensor {
    /// Reverse-mode gradient propagation from this tensor.
    ///
    /// After pre-allocating accumulators, walk the graph breadth-first from
    /// this tensor with an all-ones incoming partial.  At each
    /// gradient-requiring tensor whose value is a binary operation, write the
    /// rule's partial into each operand owner's accumulator — the chain
    /// itself for addition; the chain, and the chain times minus one, for
    /// subtraction; the sibling operand times the chain for multiplication;
    /// the chain over the divisor, and minus the dividend times the chain
    /// over the squared divisor, for division — and enqueue the owner with
    /// that partial.  Accumulator slots are overwritten in place, so their
    /// handles never change.  Finally every tensor's gradient buffer is
    /// realized on the backend.
    ///
    /// An error reports a cycle met while realizing some gradient graph;
    /// graphs built through the tensor operators have none.
    #[verifier::loop_isolation(false)]
    #[verifier::rlimit(100)]
    #[verifier::spinoff_prover]
    pub fn backward<B: Backend>(&self, engine: &mut Engine, backend: &mut B) -> (r: Result<
        (),
        RealizeError,
    >)
        requires
            old(engine).wf(),
            old(engine).backend_fits(old(backend).contents()),
            self.id.0 < old(engine).tensors@.len(),
        ensures
            final (engine).wf(),
            final (engine).backend_fits(final (backend).contents()),
            gradients_preserved(*old(engine), *final (engine)),
            forall|t: int|
                0 <= t < old(engine).tensors@.len() && old(engine).tensors@[t].requires_grad
                    ==> (#[trigger] final (engine).tensors@[t]).gradient is Some,
            final (engine).nodes@.len() >= old(engine).nodes@.len(),
            forall|j: int|
                0 <= j < old(engine).nodes@.len() ==> (#[trigger] final (engine).nodes@[j]).size
                    == old(engine).nodes@[j].size,
            forall|tt: int|
                0 <= tt < old(engine).tensors@.len() && old(engine).nodes@[(#[trigger] old(engine).tensors@[tt]).buffer.0 as int].device_buffer is Some ==> {
                    let vb = old(engine).tensors@[tt].buffer.0 as int;
                    &&& final (engine).nodes@[vb] == old(engine).nodes@[vb]
                    &&& final (backend).contents().dom().contains(vb)
                    &&& old(backend).contents().dom().contains(vb) ==> final (backend).contents()[vb] == old(backend).contents()[vb]
                },
            r is Ok ==> forall|t: int|
                0 <= t < final (engine).tensors@.len() && (#[trigger] final (engine).tensors@[t]).gradient is Some ==> {
                    let g = final (engine).tensors@[t].gradient.unwrap().0 as int;
                    &&& final (engine).nodes@[g].device_buffer is Some
                    &&& final (backend).contents().dom().contains(g)
                },
            r is Ok ==> exists|trw: Seq<GradientWrite>, sd: LazyBufferHandle|
                #![auto]
                gradient_walk_recorded(
                    *final (engine),
                    final (backend).contents(),
                    self.id.0 as int,
                    trw,
                    sd,
                ),
            r is Err ==> exists|t: int|
                0 <= t < final (engine).tensors@.len() && (#[trigger] final (engine).tensors@[t]).gradient is Some && crate::schedule::has_cycle_from(
                    final (engine).nodes@,
                    final (engine).tensors@[t].gradient.unwrap().0 as int,
                ),
    {
        Tensor::prealloc_gradients(engine, backend);
        let ghost e_pre = *engine;
        let ghost m_b = backend.contents();
        let (seed, tr) = run_gradient_walk(engine, self.id);
        let ghost e_b = e_pre;
        let node_count_now = engine.nodes.len();
        let _ = node_count_now;
        proof {
            crate::engine::lemma_fits_after_grow(e_b, *engine, backend.contents());
        }
        let ghost e_f = *engine;
        let rfin = finalize_gradients(engine, backend);
        proof {
            lemma_backward_exit_frame(
                *old(engine),
                e_pre,
                e_b,
                e_f,
                *engine,
                old(backend).contents(),
                m_b,
                backend.contents(),
            );
        }
        match rfin {
            Err(e) => Err(e),
            Ok(()) => {
                proof {
                    assert forall|k: int|
                        0 <= k < tr@.len() implies write_ok(
                        engine.nodes@,
                        engine.tensors@,
                        #[trigger] tr@[k],
                    ) by {
                        assert(write_ok(e_f.nodes@, e_f.tensors@, tr@[k]));
                        lemma_write_ok_commit(e_f.nodes@, engine.nodes@, engine.tensors@, tr@[k]);
                    }
                    assert(scratch_creation(
                        engine.nodes@,
                        seed,
                        engine.nodes@[engine.tensors@[self.id.0 as int].buffer.0 as int].size as int,
                    )) by {
                        assert(engine.nodes@[seed.0 as int] == e_f.nodes@[seed.0 as int]
                            || engine.nodes@[seed.0 as int] == crate::schedule::committed_node(
                            e_f.nodes@[seed.0 as int],
                            seed.0 as int,
                        ));
                        assert(tensor_wf(e_f.nodes@, e_f.tensors@, self.id.0 as int));
                        let vb = e_f.tensors@[self.id.0 as int].buffer.0 as int;
                        assert(engine.nodes@[vb] == e_f.nodes@[vb] || engine.nodes@[vb]
                            == crate::schedule::committed_node(e_f.nodes@[vb], vb));
                    }
                    assert forall|t: int|
                        0 <= t < engine.tensors@.len() && #[trigger] trace_targets(tr@, t)
                        implies {
                        let acc = engine.tensors@[t].gradient.unwrap();
                        &&& trace_determines_acc(engine.nodes@, tr@, t)
                        &&& backend.contents().dom().contains(acc.0 as int)
                        &&& backend.contents()[acc.0 as int] == backend.contents()[memset_source(
                            engine.nodes@,
                            acc.0 as int,
                        ).unwrap().0 as int]
                    } by {
                        let acc = e_f.tensors@[t].gradient.unwrap();
                        assert(e_f.tensors@[t].gradient is Some);
                        assert(trace_determines_acc(e_f.nodes@, tr@, t));
                        let k = choose|k: int|
                            #![auto]
                            0 <= k < tr@.len() && tr@[k].target == t
                                && e_f.nodes@[tr@[k].acc.0 as int].operation == LazyOp::Memset(
                                tr@[k].acc,
                                tr@[k].expr,
                            ) && (forall|k2: int|
                                k < k2 < tr@.len() ==> (#[trigger] tr@[k2]).target != t);
                        assert(tr@[k].acc == acc) by {
                            assert(write_ok(e_f.nodes@, e_f.tensors@, tr@[k]));
                        }
                        assert(e_f.nodes@[acc.0 as int].operation is Memset);
                        assert(e_f.nodes@[acc.0 as int].device_buffer is None);
                        assert(memset_source(e_f.nodes@, acc.0 as int) == Some(tr@[k].expr));
                        assert(backend.contents()[acc.0 as int] == backend.contents()[
                            memset_source(e_f.nodes@, acc.0 as int).unwrap().0 as int]);
                        assert(engine.nodes@[acc.0 as int].operation
                            == e_f.nodes@[acc.0 as int].operation);
                        assert(memset_source(engine.nodes@, acc.0 as int) == Some(tr@[k].expr));
                        assert(trace_determines_acc(engine.nodes@, tr@, t));
                    }
                    assert(gradient_walk_recorded(
                        *engine,
                        backend.contents(),
                        self.id.0 as int,
                        tr@,
                        seed,
                    ));
                }
                Ok(())
            },
        }
    }
}

/// The gradient walk itself: seed an all-ones partial at the root tensor and
/// propagate breadth-first, writing each rule's expression into the operand
/// owners' accumulators and recording every write.  Returns the seed node and
/// the record.  The walk reads and grows only the engine; it never touches a
/// backend.
#[verifier::rlimit(100)]
#[verifier::spinoff_prover]
fn run_gradient_walk(engine: &mut Engine, root: TensorId) -> (r: (
    LazyBufferHandle,
    Ghost<Seq<GradientWrite>>,
))
    requires
        old(engine).wf(),
        root.0 < old(engine).tensors@.len(),
    ensures
        final (engine).wf(),
        engine_tracks(*old(engine), *final (engine)),
        trace_state_ok(*final (engine), r.1@),
        trace_linked(r.1@, root.0, r.0),
        scratch_creation(
            final (engine).nodes@,
            r.0,
            final (engine).nodes@[final (engine).tensors@[root.0 as int].buffer.0 as int].size as int,
        ),
{
    proof {
        assert(tensor_wf(engine.nodes@, engine.tensors@, root.0 as int));
    }
    let root_buffer = engine.tensors[root.0].buffer;
    let root_size = engine.nodes[root_buffer.0].size;
    let ones = crate::schedule::make_words(WORD_ONE, root_size);
    let chain0 = LazyBuffer::scratch(engine, ones);
    proof {
        assert forall|tt: int|
            0 <= tt < engine.tensors@.len() implies (#[trigger] engine.tensors@[tt]).buffer.0
            < engine.nodes@.len() by {
            assert(tensor_wf(engine.nodes@, engine.tensors@, tt));
        }
    }
    let ghost e_b = *engine;
    proof {
        assert(engine_tracks(e_b, *engine));
    }
    let mut queue: Vec<GradientTask> = Vec::new();
    queue.push(GradientTask { tensor: root, chain: chain0 });
    let mut tr: Ghost<Seq<GradientWrite>> = Ghost(Seq::empty());
    let mut head: usize = 0;
    proof {
        assert(scratch_creation(engine.nodes@, chain0, root_size as int));
        assert(task_ok(*engine, queue@[0]));
        assert(queue_prov(queue@, tr@, root, chain0));
    }
    while head < queue.len()
        invariant
            engine.wf(),
            engine_tracks(e_b, *engine),
            head <= queue@.len(),
            forall|k: int| 0 <= k < queue@.len() ==> task_ok(*engine, #[trigger] queue@[k]),
            trace_state_ok(*engine, tr@),
            trace_linked(tr@, root.0, chain0),
            queue_prov(queue@, tr@, root, chain0),
            scratch_creation(engine.nodes@, chain0, root_size as int),
        decreases queue_measure(queue@, head as int),
    {
        let ghost q0 = queue@;
        let ghost h0 = head as int;
        let ghost tr0 = tr@;
        let task = queue[head];
        proof {
            assert(task_ok(*engine, task));
        }
        let t_idx = task.tensor.0;
        let trow = engine.tensors[t_idx];
        if trow.requires_grad {
            let vb = trow.buffer;
            proof {
                assert(tensor_wf(engine.nodes@, engine.tensors@, t_idx as int));
                assert(node_wf(engine.nodes@, engine.tensors@.len(), vb.0 as int));
            }
            let (tag, a, b): (u8, LazyBufferHandle, LazyBufferHandle) = match &engine.nodes[vb.0].operation {
                LazyOp::Add(x, y) => (1u8, *x, *y),
                LazyOp::Subtract(x, y) => (2u8, *x, *y),
                LazyOp::Multiply(x, y) => (3u8, *x, *y),
                LazyOp::Divide(x, y) => (4u8, *x, *y),
                _ => (0u8, LazyBufferHandle(0), LazyBufferHandle(0)),
            };
            let ghost pop0 = engine.nodes@[vb.0 as int].operation;
            if tag != 0u8 {
                proof {
                    assert(crate::engine::value_op_wf(engine.nodes@, engine.tensors@, t_idx as int));
                    assert(crate::engine::operand_owned_before(engine.nodes@, a, t_idx as int));
                    assert(crate::engine::operand_owned_before(engine.nodes@, b, t_idx as int));
                    assert(vb == e_b.tensors@[t_idx as int].buffer);
                    assert(vb.0 < e_b.nodes@.len());
                    assert(a.0 < vb.0 && b.0 < vb.0);
                    assert(engine.nodes@[a.0 as int].kind == e_b.nodes@[a.0 as int].kind);
                    assert(engine.nodes@[b.0 as int].kind == e_b.nodes@[b.0 as int].kind);
                    assert((e_b.nodes@[a.0 as int].kind matches LazybufferType::TensorData(o)
                        && o.0 < t_idx));
                    assert((e_b.nodes@[b.0 as int].kind matches LazybufferType::TensorData(o)
                        && o.0 < t_idx));
                    assert(e_b.nodes@[vb.0 as int].operation == pop0);
                    assert(op_operands(pop0).0 == a && op_operands(pop0).1 == b);
                }
                if tag == 1u8 {
                    tr = backward_step(
                        engine,
                        &mut queue,
                        Ghost(e_b),
                        Ghost(t_idx as int),
                        tr,
                        Ghost(t_idx),
                        Ghost(task.chain),
                        Ghost(false),
                        a,
                        task.chain,
                    );
                    proof {
                        lemma_walk_step_book(q0, queue@, tr0, tr@, task, h0, root, chain0);
                        assert(engine.nodes@[vb.0 as int].operation == pop0);
                    }
                    let ghost q1 = queue@;
                    let ghost tr1 = tr@;
                    tr = backward_step(
                        engine,
                        &mut queue,
                        Ghost(e_b),
                        Ghost(t_idx as int),
                        tr,
                        Ghost(t_idx),
                        Ghost(task.chain),
                        Ghost(true),
                        b,
                        task.chain,
                    );
                    proof {
                        assert(q1[h0] == task);
                        lemma_walk_step_book(q1, queue@, tr1, tr@, task, h0, root, chain0);
                    }
                } else if tag == 2u8 {
                    tr = backward_step(
                        engine,
                        &mut queue,
                        Ghost(e_b),
                        Ghost(t_idx as int),
                        tr,
                        Ghost(t_idx),
                        Ghost(task.chain),
                        Ghost(false),
                        a,
                        task.chain,
                    );
                    proof {
                        lemma_walk_step_book(q0, queue@, tr0, tr@, task, h0, root, chain0);
                        assert(queue@[h0] == task);
                        assert(task_ok(*engine, task));
                    }
                    let csize = engine.nodes[task.chain.0].size;
                    proof {
                        assert(tensor_wf(engine.nodes@, engine.tensors@, t_idx as int));
                        assert(node_wf(engine.nodes@, engine.tensors@.len(), vb.0 as int));
                    }
                    let ghost s1 = *engine;
                    let neg = LazyBuffer::scratch(
                        engine,
                        crate::schedule::make_words(WORD_NEG_ONE, csize),
                    );
                    proof {
                        lemma_tracks_grow(e_b, s1, *engine);
                        lemma_tasks_ok_grow(s1, *engine, queue@);
                        lemma_trace_state_grow(s1, *engine, tr@);
                        assert(queue@[h0] == task);
                        assert(task_ok(*engine, task));
                        assert(tensor_wf(engine.nodes@, engine.tensors@, t_idx as int));
                        assert(node_wf(engine.nodes@, engine.tensors@.len(), vb.0 as int));
                    }
                    let ghost s2 = *engine;
                    let eb = LazyBuffer::scratch_op(
                        engine,
                        LazyOp::Multiply(task.chain, neg),
                    );
                    proof {
                        lemma_tracks_grow(e_b, s2, *engine);
                        lemma_tasks_ok_grow(s2, *engine, queue@);
                        lemma_trace_state_grow(s2, *engine, tr@);
                        assert(engine.nodes@[vb.0 as int].operation == pop0);
                        assert(scratch_creation(
                            engine.nodes@,
                            neg,
                            engine.nodes@[task.chain.0 as int].size as int,
                        ));
                        assert(scratch_keyed(engine.nodes@, eb, LazyOp::Multiply(task.chain, neg)));
                        assert(rule_expression(engine.nodes@, pop0, true, task.chain, eb));
                    }
                    let ghost q1 = queue@;
                    let ghost tr1 = tr@;
                    tr = backward_step(
                        engine,
                        &mut queue,
                        Ghost(e_b),
                        Ghost(t_idx as int),
                        tr,
                        Ghost(t_idx),
                        Ghost(task.chain),
                        Ghost(true),
                        b,
                        eb,
                    );
                    proof {
                        assert(q1[h0] == task);
                        lemma_walk_step_book(q1, queue@, tr1, tr@, task, h0, root, chain0);
                    }
                } else if tag == 3u8 {
                    let ghost s1 = *engine;
                    let ea = LazyBuffer::scratch_op(engine, LazyOp::Multiply(b, task.chain));
                    proof {
                        lemma_tracks_grow(e_b, s1, *engine);
                        lemma_tasks_ok_grow(s1, *engine, queue@);
                        lemma_trace_state_grow(s1, *engine, tr@);
                        assert(engine.nodes@[vb.0 as int].operation == pop0);
                        assert(task_ok(*engine, task));
                        assert(rule_expression(engine.nodes@, pop0, false, task.chain, ea));
                    }
                    tr = backward_step(
                        engine,
                        &mut queue,
                        Ghost(e_b),
                        Ghost(t_idx as int),
                        tr,
                        Ghost(t_idx),
                        Ghost(task.chain),
                        Ghost(false),
                        a,
                        ea,
                    );
                    proof {
                        lemma_walk_step_book(q0, queue@, tr0, tr@, task, h0, root, chain0);
                        assert(queue@[h0] == task);
                        assert(task_ok(*engine, task));
                        assert(tensor_wf(engine.nodes@, engine.tensors@, t_idx as int));
                        assert(node_wf(engine.nodes@, engine.tensors@.len(), vb.0 as int));
                    }
                    let ghost s2 = *engine;
                    let eb2 = LazyBuffer::scratch_op(engine, LazyOp::Multiply(a, task.chain));
                    proof {
                        lemma_tracks_grow(e_b, s2, *engine);
                        lemma_tasks_ok_grow(s2, *engine, queue@);
                        lemma_trace_state_grow(s2, *engine, tr@);
                        assert(engine.nodes@[vb.0 as int].operation == pop0);
                        assert(rule_expression(engine.nodes@, pop0, true, task.chain, eb2));
                    }
                    let ghost q1 = queue@;
                    let ghost tr1 = tr@;
                    tr = backward_step(
                        engine,
                        &mut queue,
                        Ghost(e_b),
                        Ghost(t_idx as int),
                        tr,
                        Ghost(t_idx),
                        Ghost(task.chain),
                        Ghost(true),
                        b,
                        eb2,
                    );
                    proof {
                        assert(q1[h0] == task);
                        lemma_walk_step_book(q1, queue@, tr1, tr@, task, h0, root, chain0);
                    }
                } else {
                    let ghost s1 = *engine;
                    let ea = LazyBuffer::scratch_op(engine, LazyOp::Divide(task.chain, b));
                    proof {
                        lemma_tracks_grow(e_b, s1, *engine);
                        lemma_tasks_ok_grow(s1, *engine, queue@);
                        lemma_trace_state_grow(s1, *engine, tr@);
                        assert(engine.nodes@[vb.0 as int].operation == pop0);
                        assert(task_ok(*engine, task));
                        assert(rule_expression(engine.nodes@, pop0, false, task.chain, ea));
                    }
                    tr = backward_step(
                        engine,
                        &mut queue,
                        Ghost(e_b),
                        Ghost(t_idx as int),
                        tr,
                        Ghost(t_idx),
                        Ghost(task.chain),
                        Ghost(false),
                        a,
                        ea,
                    );
                    proof {
                        lemma_walk_step_book(q0, queue@, tr0, tr@, task, h0, root, chain0);
                        assert(queue@[h0] == task);
                        assert(task_ok(*engine, task));
                        assert(tensor_wf(engine.nodes@, engine.tensors@, t_idx as int));
                        assert(node_wf(engine.nodes@, engine.tensors@.len(), vb.0 as int));
                    }
                    let ghost s2 = *engine;
                    let m1 = LazyBuffer::scratch_op(engine, LazyOp::Multiply(a, task.chain));
                    proof {
                        lemma_tracks_grow(e_b, s2, *engine);
                        lemma_tasks_ok_grow(s2, *engine, queue@);
                        lemma_trace_state_grow(s2, *engine, tr@);
                        assert(queue@[h0] == task);
                        assert(task_ok(*engine, task));
                    }
                    let csize = engine.nodes[task.chain.0].size;
                    proof {
                        assert(tensor_wf(engine.nodes@, engine.tensors@, t_idx as int));
                        assert(node_wf(engine.nodes@, engine.tensors@.len(), vb.0 as int));
                    }
                    let ghost s3 = *engine;
                    let neg = LazyBuffer::scratch(
                        engine,
                        crate::schedule::make_words(WORD_NEG_ONE, csize),
                    );
                    proof {
                        lemma_tracks_grow(e_b, s3, *engine);
                        lemma_tasks_ok_grow(s3, *engine, queue@);
                        lemma_trace_state_grow(s3, *engine, tr@);
                        assert(queue@[h0] == task);
                        assert(task_ok(*engine, task));
                        assert(tensor_wf(engine.nodes@, engine.tensors@, t_idx as int));
                        assert(node_wf(engine.nodes@, engine.tensors@.len(), vb.0 as int));
                        assert(engine.nodes@[m1.0 as int] == s3.nodes@[m1.0 as int]);
                    }
                    let ghost s4 = *engine;
                    let mn = LazyBuffer::scratch_op(engine, LazyOp::Multiply(m1, neg));
                    proof {
                        lemma_tracks_grow(e_b, s4, *engine);
                        lemma_tasks_ok_grow(s4, *engine, queue@);
                        lemma_trace_state_grow(s4, *engine, tr@);
                        assert(queue@[h0] == task);
                        assert(task_ok(*engine, task));
                        assert(tensor_wf(engine.nodes@, engine.tensors@, t_idx as int));
                        assert(node_wf(engine.nodes@, engine.tensors@.len(), vb.0 as int));
                    }
                    let ghost s5 = *engine;
                    let bb = LazyBuffer::scratch_op(engine, LazyOp::Multiply(b, b));
                    proof {
                        lemma_tracks_grow(e_b, s5, *engine);
                        lemma_tasks_ok_grow(s5, *engine, queue@);
                        lemma_trace_state_grow(s5, *engine, tr@);
                        assert(queue@[h0] == task);
                        assert(task_ok(*engine, task));
                        assert(tensor_wf(engine.nodes@, engine.tensors@, t_idx as int));
                        assert(node_wf(engine.nodes@, engine.tensors@.len(), vb.0 as int));
                    }
                    let ghost s6 = *engine;
                    let eb3 = LazyBuffer::scratch_op(engine, LazyOp::Divide(mn, bb));
                    proof {
                        lemma_tracks_grow(e_b, s6, *engine);
                        lemma_tasks_ok_grow(s6, *engine, queue@);
                        lemma_trace_state_grow(s6, *engine, tr@);
                        assert(engine.nodes@[vb.0 as int].operation == pop0);
                        assert(scratch_keyed(engine.nodes@, m1, LazyOp::Multiply(a, task.chain)));
                        assert(scratch_creation(
                            engine.nodes@,
                            neg,
                            engine.nodes@[task.chain.0 as int].size as int,
                        ));
                        assert(scratch_keyed(engine.nodes@, mn, LazyOp::Multiply(m1, neg)));
                        assert(scratch_keyed(engine.nodes@, bb, LazyOp::Multiply(b, b)));
                        assert(scratch_keyed(engine.nodes@, eb3, LazyOp::Divide(mn, bb)));
                        assert(rule_expression(engine.nodes@, pop0, true, task.chain, eb3)) by {
                            let wit = (m1, neg, mn, bb);
                            assert({
                                &&& scratch_keyed(engine.nodes@, wit.0, LazyOp::Multiply(a, task.chain))
                                &&& scratch_creation(
                                    engine.nodes@,
                                    wit.1,
                                    engine.nodes@[task.chain.0 as int].size as int,
                                )
                                &&& scratch_keyed(engine.nodes@, wit.2, LazyOp::Multiply(wit.0, wit.1))
                                &&& scratch_keyed(engine.nodes@, wit.3, LazyOp::Multiply(b, b))
                                &&& scratch_keyed(engine.nodes@, eb3, LazyOp::Divide(wit.2, wit.3))
                            });
                        }
                    }
                    let ghost q1 = queue@;
                    let ghost tr1 = tr@;
                    tr = backward_step(
                        engine,
                        &mut queue,
                        Ghost(e_b),
                        Ghost(t_idx as int),
                        tr,
                        Ghost(t_idx),
                        Ghost(task.chain),
                        Ghost(true),
                        b,
                        eb3,
                    );
                    proof {
                        assert(q1[h0] == task);
                        lemma_walk_step_book(q1, queue@, tr1, tr@, task, h0, root, chain0);
                    }
                }
            }
        }
        head = head + 1;
        proof {
            lemma_queue_measure_drop(q0, queue@, h0, task);
        }
    }
    proof {
        assert(engine_tracks(*old(engine), *engine)) by {
            assert forall|tt: int|
                0 <= tt < old(engine).tensors@.len() implies (#[trigger] old(
                engine,
            ).tensors@[tt]).buffer.0 < old(engine).nodes@.len() by {
                assert(tensor_wf(old(engine).nodes@, old(engine).tensors@, tt));
            }
            assert forall|j: int|
                0 <= j < old(engine).nodes@.len() implies engine.nodes@[j] == old(
                engine,
            ).nodes@[j] || (#[trigger] engine.nodes@[j]).device_buffer is None by {
                assert(engine.nodes@[j] == e_b.nodes@[j]
                    || engine.nodes@[j].device_buffer is None);
            }
            assert forall|j: int|
                old(engine).nodes@.len() <= j < engine.nodes@.len() implies (
            #[trigger] engine.nodes@[j]).device_buffer is None by {
                if j < e_b.nodes@.len() {
                    assert(e_b.nodes@[j].device_buffer is None);
                    assert(engine.nodes@[j] == e_b.nodes@[j]
                        || engine.nodes@[j].device_buffer is None);
                }
            }
            assert forall|tt: int|
                0 <= tt < old(engine).tensors@.len() implies engine.nodes@[(#[trigger] old(
                engine,
            ).tensors@[tt]).buffer.0 as int] == old(engine).nodes@[old(
                engine,
            ).tensors@[tt].buffer.0 as int] by {
                assert(e_b.tensors@[tt] == old(engine).tensors@[tt]);
                assert(engine.nodes@[e_b.tensors@[tt].buffer.0 as int]
                    == e_b.nodes@[e_b.tensors@[tt].buffer.0 as int]);
            }
        }
        assert(scratch_creation(
            engine.nodes@,
            chain0,
            engine.nodes@[engine.tensors@[root.0 as int].buffer.0 as int].size as int,
        ));
    }
    (chain0, tr)
}

/// The source buffer a memset node copies from, if the node is one.
pub open spec fn memset_source(nodes: Seq<LazyBuffer>, g: int) -> Option<LazyBufferHandle> {
    match nodes[g].operation {
        LazyOp::Memset(_, e) => Some(e),
        _ => None,
    }
}

/// Realize every assigned gradient accumulator on the backend, in tensor
/// order.  Realized buffers keep their words; registry slots move only to
/// their committed form.
#[verifier::loop_isolation(false)]
#[verifier::rlimit(80)]
fn finalize_gradients<B: Backend>(engine: &mut Engine, backend: &mut B) -> (r: Result<
    (),
    RealizeError,
>)
    requires
        old(engine).wf(),
        old(engine).backend_fits(old(backend).contents()),
    ensures
        final (engine).wf(),
        final (engine).backend_fits(final (backend).contents()),
        final (engine).tensors@ == old(engine).tensors@,
        final (engine).nodes@.len() == old(engine).nodes@.len(),
        forall|id: int|
            #[trigger] old(backend).contents().dom().contains(id) ==> final (backend).contents().dom().contains(id),
        forall|j: int|
            0 <= j < old(engine).nodes@.len() ==> #[trigger] final (engine).nodes@[j] == old(engine).nodes@[j] || final (engine).nodes@[j] == crate::schedule::committed_node(
                old(engine).nodes@[j],
                j,
            ),
        forall|id: int|
            0 <= id < old(engine).nodes@.len() && (#[trigger] old(engine).nodes@[id]).device_buffer is Some ==> final (backend).contents().dom().contains(id)
                && old(backend).contents().dom().contains(id) && final (backend).contents()[id]
                == old(backend).contents()[id] && final (engine).nodes@[id] == old(engine).nodes@[id],
        r is Ok ==> forall|t: int|
            0 <= t < old(engine).tensors@.len() && (#[trigger] old(engine).tensors@[t]).gradient is Some ==> {
                let g = old(engine).tensors@[t].gradient.unwrap().0 as int;
                &&& final (engine).nodes@[g].device_buffer is Some
                &&& final (backend).contents().dom().contains(g)
            },
        r is Ok ==> forall|t: int|
            0 <= t < old(engine).tensors@.len() && (#[trigger] old(engine).tensors@[t]).gradient is Some
                && old(engine).nodes@[old(engine).tensors@[t].gradient.unwrap().0 as int].operation is Memset
                && old(engine).nodes@[old(engine).tensors@[t].gradient.unwrap().0 as int].device_buffer is None
                ==> {
                let g = old(engine).tensors@[t].gradient.unwrap().0 as int;
                let e = memset_source(old(engine).nodes@, g).unwrap().0 as int;
                &&& final (backend).contents().dom().contains(e)
                &&& final (backend).contents()[g] == final (backend).contents()[e]
                &&& final (engine).nodes@[g].operation == old(engine).nodes@[g].operation
            },
        r is Err ==> exists|t: int|
            0 <= t < final (engine).tensors@.len() && (#[trigger] final (engine).tensors@[t]).gradient is Some && crate::schedule::has_cycle_from(
                final (engine).nodes@,
                final (engine).tensors@[t].gradient.unwrap().0 as int,
            ),
{
    let ghost e_f = *old(engine);
    let ghost m_b = old(backend).contents();
    let tensor_total = engine.tensors.len();
    let mut t2: usize = 0;
    while t2 < tensor_total
        invariant
            engine.wf(),
            engine.backend_fits(backend.contents()),
            engine.tensors@ == e_f.tensors@,
            tensor_total == e_f.tensors@.len(),
            t2 <= tensor_total,
            e_f.wf(),
            e_f.backend_fits(m_b),
            engine.nodes@.len() == e_f.nodes@.len(),
            forall|j: int|
                0 <= j < e_f.nodes@.len() ==> #[trigger] engine.nodes@[j] == e_f.nodes@[j]
                    || engine.nodes@[j] == crate::schedule::committed_node(e_f.nodes@[j], j),
            forall|id: int|
                #[trigger] m_b.dom().contains(id) ==> backend.contents().dom().contains(id),
            forall|id: int|
                0 <= id < e_f.nodes@.len() && (#[trigger] e_f.nodes@[id]).device_buffer is Some
                    ==> backend.contents().dom().contains(id) && m_b.dom().contains(id)
                    && backend.contents()[id] == m_b[id] && engine.nodes@[id]
                    == e_f.nodes@[id],
            forall|tt: int|
                0 <= tt < t2 && (#[trigger] e_f.tensors@[tt]).gradient is Some ==> {
                    let g = e_f.tensors@[tt].gradient.unwrap().0 as int;
                    &&& engine.nodes@[g].device_buffer is Some
                    &&& backend.contents().dom().contains(g)
                },
            forall|tt: int|
                0 <= tt < tensor_total && (#[trigger] e_f.tensors@[tt]).gradient is Some
                    && e_f.nodes@[e_f.tensors@[tt].gradient.unwrap().0 as int].operation is Memset
                    && e_f.nodes@[e_f.tensors@[tt].gradient.unwrap().0 as int].device_buffer is None
                    && engine.nodes@[e_f.tensors@[tt].gradient.unwrap().0 as int].device_buffer is Some
                    ==> {
                    let g = e_f.tensors@[tt].gradient.unwrap().0 as int;
                    let e = memset_source(e_f.nodes@, g).unwrap().0 as int;
                    &&& backend.contents().dom().contains(g)
                    &&& backend.contents().dom().contains(e)
                    &&& backend.contents()[g] == backend.contents()[e]
                    &&& engine.nodes@[e].device_buffer is Some
                    &&& engine.nodes@[g].operation == e_f.nodes@[g].operation
                },
        decreases tensor_total - t2,
    {
        let g_opt = engine.tensors[t2].gradient;
        if let Some(g) = g_opt {
            proof {
                assert(tensor_wf(engine.nodes@, engine.tensors@, t2 as int));
            }
            let ghost e_c = *engine;
            let ghost m_c = backend.contents();
            let rr = g.realize(engine, backend);
            match rr {
                Err(e) => {
                    proof {
                        assert(engine.tensors@[t2 as int].gradient is Some);
                        assert(crate::schedule::has_cycle_from(engine.nodes@, g.0 as int));
                    }
                    return Err(e);
                },
                Ok(()) => {
                    proof {
                        crate::schedule::lemma_reaches_self(e_c.nodes@, g.0 as int);
                        lemma_finalize_step(e_f, e_c, *engine, m_b, m_c, backend.contents(), g.0 as int);
                        assert forall|id: int|
                            #[trigger] m_c.dom().contains(id)
                            implies backend.contents().dom().contains(id) by {
                            if !(0 <= id < e_c.nodes@.len() && crate::schedule::reaches(
                                e_c.nodes@,
                                g.0 as int,
                                id,
                            ) && e_c.nodes@[id].device_buffer is None) {
                            } else {
                                assert(crate::schedule::reaches(e_c.nodes@, g.0 as int, id));
                            }
                        }
                        assert forall|j: int|
                            0 <= j < e_c.nodes@.len() && (
                            #[trigger] e_c.nodes@[j]).device_buffer is Some
                            implies engine.nodes@[j].device_buffer is Some by {
                            if crate::schedule::reaches(e_c.nodes@, g.0 as int, j) {
                                assert(engine.nodes@[j] == crate::schedule::committed_node(
                                    e_c.nodes@[j],
                                    j,
                                ));
                            }
                        }
                        assert(crate::schedule::reaches(e_c.nodes@, g.0 as int, g.0 as int));
                        assert(backend.contents().dom().contains(g.0 as int));
                        assert(engine.nodes@[g.0 as int] == crate::schedule::committed_node(
                            e_c.nodes@[g.0 as int],
                            g.0 as int,
                        ));
                        assert forall|tt: int|
                            0 <= tt < t2 + 1 && (#[trigger] e_f.tensors@[tt]).gradient is Some
                            implies {
                            let gg = e_f.tensors@[tt].gradient.unwrap().0 as int;
                            &&& engine.nodes@[gg].device_buffer is Some
                            &&& backend.contents().dom().contains(gg)
                        } by {
                            assert(tensor_wf(e_f.nodes@, e_f.tensors@, tt));
                            let gg = e_f.tensors@[tt].gradient.unwrap().0 as int;
                            if tt < t2 {
                                assert(e_c.nodes@[gg].device_buffer is Some);
                                assert(m_c.dom().contains(gg));
                            } else {
                                assert(e_f.tensors@[tt] == engine.tensors@[tt]);
                                assert(gg == g.0 as int);
                            }
                        }
                        assert forall|id: int|
                            0 <= id < e_c.nodes@.len() && (
                            #[trigger] e_c.nodes@[id]).device_buffer is Some && m_c.dom().contains(
                            id,
                        ) implies backend.contents().dom().contains(id) && backend.contents()[id]
                            == m_c[id] by {}
                        assert forall|tt: int|
                            0 <= tt < tensor_total && (#[trigger] e_f.tensors@[tt]).gradient is Some
                                && e_f.nodes@[e_f.tensors@[tt].gradient.unwrap().0 as int].operation is Memset
                                && e_f.nodes@[e_f.tensors@[tt].gradient.unwrap().0 as int].device_buffer is None
                                && engine.nodes@[e_f.tensors@[tt].gradient.unwrap().0 as int].device_buffer is Some
                            implies {
                            let gg = e_f.tensors@[tt].gradient.unwrap().0 as int;
                            let ee = memset_source(e_f.nodes@, gg).unwrap().0 as int;
                            &&& backend.contents().dom().contains(gg)
                            &&& backend.contents().dom().contains(ee)
                            &&& backend.contents()[gg] == backend.contents()[ee]
                            &&& engine.nodes@[ee].device_buffer is Some
                            &&& engine.nodes@[gg].operation == e_f.nodes@[gg].operation
                        } by {
                            assert(tensor_wf(e_f.nodes@, e_f.tensors@, tt));
                            let gg = e_f.tensors@[tt].gradient.unwrap().0 as int;
                            assert(node_wf(e_f.nodes@, e_f.tensors@.len(), gg));
                            let eeh = memset_source(e_f.nodes@, gg).unwrap();
                            let ee = eeh.0 as int;
                            assert(e_c.nodes@[gg] == e_f.nodes@[gg] || e_c.nodes@[gg]
                                == crate::schedule::committed_node(e_f.nodes@[gg], gg));
                            assert(e_c.nodes@[gg].operation == e_f.nodes@[gg].operation);
                            if e_c.nodes@[gg].device_buffer is Some {
                                assert(m_c.dom().contains(gg));
                                assert(m_c.dom().contains(ee));
                                assert(m_c[gg] == m_c[ee]);
                                assert(e_c.nodes@[ee].device_buffer is Some);
                                assert(backend.contents()[gg] == m_c[gg]);
                                assert(backend.contents()[ee] == m_c[ee]);
                            } else {
                                assert(crate::schedule::reaches(e_c.nodes@, g.0 as int, gg)) by {
                                    if !crate::schedule::reaches(e_c.nodes@, g.0 as int, gg) {
                                        assert(engine.nodes@[gg] == e_c.nodes@[gg]);
                                    }
                                }
                                assert(crate::schedule::node_result_ok::<B>(
                                    e_c.nodes@,
                                    m_c,
                                    backend.contents(),
                                    gg,
                                ));
                                assert(crate::node::is_sched_child(e_c.nodes@[gg].operation, ee));
                                crate::schedule::lemma_reaches_child(
                                    e_c.nodes@,
                                    g.0 as int,
                                    gg,
                                    ee,
                                );
                                assert(crate::schedule::reaches(e_c.nodes@, g.0 as int, ee));
                                assert(engine.nodes@[ee] == crate::schedule::committed_node(
                                    e_c.nodes@[ee],
                                    ee,
                                ));
                                assert(backend.contents().dom().contains(ee));
                            }
                        }
                    }
                },
            }
        }
        t2 = t2 + 1;
    }
    proof {
        assert forall|tt: int|
            0 <= tt < e_f.tensors@.len() && (#[trigger] e_f.tensors@[tt]).gradient is Some
            implies {
            let g = e_f.tensors@[tt].gradient.unwrap().0 as int;
            &&& engine.nodes@[g].device_buffer is Some
            &&& backend.contents().dom().contains(g)
        } by {}
    }
    Ok(())
}

/// The chain of frames from entry to exit of the backward pass, assembled:
/// the tensor-table frame composes through the phases, and a realized value
/// buffer keeps its node and its device words.
proof fn lemma_backward_exit_frame(
    e_old: Engine,
    e_pre: Engine,
    e_b: Engine,
    e_f: Engine,
    e_cur: Engine,
    m_old: Map<int, Seq<u32>>,
    m_b: Map<int, Seq<u32>>,
    m_cur: Map<int, Seq<u32>>,
)
    requires
        e_old.wf(),
        e_old.backend_fits(m_old),
        gradients_preserved(e_old, e_pre),
        e_pre.nodes@.len() >= e_old.nodes@.len(),
        forall|j: int| 0 <= j < e_old.nodes@.len() ==> e_pre.nodes@[j] == e_old.nodes@[j],
        forall|id: int|
            0 <= id < e_old.nodes@.len() && #[trigger] m_old.dom().contains(id) ==> m_b
                .dom().contains(id) && m_b[id] == m_old[id],
        e_b.tensors@ == e_pre.tensors@,
        e_b.nodes@.len() >= e_pre.nodes@.len(),
        forall|j: int| 0 <= j < e_pre.nodes@.len() ==> e_b.nodes@[j] == e_pre.nodes@[j],
        engine_tracks(e_b, e_f),
        e_cur.tensors@ == e_f.tensors@,
        e_cur.nodes@.len() == e_f.nodes@.len(),
        forall|j: int|
            0 <= j < e_f.nodes@.len() ==> #[trigger] e_cur.nodes@[j] == e_f.nodes@[j]
                || e_cur.nodes@[j] == crate::schedule::committed_node(e_f.nodes@[j], j),
        forall|id: int|
            0 <= id < e_f.nodes@.len() && (#[trigger] e_f.nodes@[id]).device_buffer is Some
                ==> m_cur.dom().contains(id) && m_b.dom().contains(id) && m_cur[id] == m_b[id]
                && e_cur.nodes@[id] == e_f.nodes@[id],
        forall|t: int|
            0 <= t < e_old.tensors@.len() && e_old.tensors@[t].requires_grad ==> (
            #[trigger] e_pre.tensors@[t]).gradient is Some,
    ensures
        gradients_preserved(e_old, e_cur),
        forall|t: int|
            0 <= t < e_old.tensors@.len() && e_old.tensors@[t].requires_grad ==> (
            #[trigger] e_cur.tensors@[t]).gradient is Some,
        e_cur.nodes@.len() >= e_old.nodes@.len(),
        forall|j: int|
            0 <= j < e_old.nodes@.len() ==> (#[trigger] e_cur.nodes@[j]).size
                == e_old.nodes@[j].size,
        forall|tt: int|
            0 <= tt < e_old.tensors@.len() && e_old.nodes@[(#[trigger] e_old.tensors@[tt]).buffer.0 as int].device_buffer is Some ==> {
                let vb = e_old.tensors@[tt].buffer.0 as int;
                &&& e_cur.nodes@[vb] == e_old.nodes@[vb]
                &&& m_cur.dom().contains(vb)
                &&& m_old.dom().contains(vb) ==> m_cur[vb] == m_old[vb]
            },
{
    assert forall|j: int|
        0 <= j < e_old.nodes@.len() implies (#[trigger] e_cur.nodes@[j]).size
        == e_old.nodes@[j].size by {
        assert(e_b.nodes@[j] == e_old.nodes@[j]);
        assert(e_f.nodes@[j].size == e_b.nodes@[j].size);
        assert(e_cur.nodes@[j] == e_f.nodes@[j] || e_cur.nodes@[j]
            == crate::schedule::committed_node(e_f.nodes@[j], j));
    }
    assert forall|tt: int|
        0 <= tt < e_old.tensors@.len() && e_old.nodes@[(#[trigger] e_old.tensors@[tt]).buffer.0 as int].device_buffer is Some implies {
        let vb = e_old.tensors@[tt].buffer.0 as int;
        &&& e_cur.nodes@[vb] == e_old.nodes@[vb]
        &&& m_cur.dom().contains(vb)
        &&& m_old.dom().contains(vb) ==> m_cur[vb] == m_old[vb]
    } by {
        assert(tensor_wf(e_old.nodes@, e_old.tensors@, tt));
        let vbh = e_old.tensors@[tt].buffer;
        let vb = vbh.0 as int;
        assert(e_pre.nodes@[vb] == e_old.nodes@[vb]);
        assert(e_b.nodes@[vb] == e_old.nodes@[vb]);
        assert(e_b.tensors@[tt].buffer == vbh);
        assert(e_f.nodes@[vb] == e_b.nodes@[vb]);
        assert(e_f.nodes@[vb].device_buffer is Some);
        assert(e_cur.nodes@[vb] == e_f.nodes@[vb]);
        assert(m_cur.dom().contains(vb));
        assert(node_wf(e_old.nodes@, e_old.tensors@.len(), vb));
        if m_old.dom().contains(vb) {
            assert(m_b[vb] == m_old[vb]);
            assert(m_cur[vb] == m_b[vb]);
        }
    }
}

impl Tensor {
    /// Realize this tensor's value on a backend, leaving the result on the
    /// device.
    pub fn realize<B: Backend>(&self, engine: &mut Engine, backend: &mut B) -> (r: Result<
        (),
        RealizeError,
    >)
        requires
            old(engine).wf(),
            old(engine).backend_fits(old(backend).contents()),
            self.buffer.0 < old(engine).nodes@.len(),
        ensures
            final (engine).wf(),
            final (engine).backend_fits(final (backend).contents()),
            final (engine).tensors@ == old(engine).tensors@,
            final (engine).nodes@.len() == old(engine).nodes@.len(),
            r is Ok ==> {
                &&& final (engine).nodes@[self.buffer.0 as int].device_buffer is Some
                &&& final (backend).contents().dom().contains(self.buffer.0 as int)
                &&& crate::schedule::node_result_ok::<B>(
                    old(engine).nodes@,
                    old(backend).contents(),
                    final (backend).contents(),
                    self.buffer.0 as int,
                )
            },
            r is Err ==> {
                &&& crate::schedule::has_cycle_from(old(engine).nodes@, self.buffer.0 as int)
                &&& final (engine).nodes@ == old(engine).nodes@
                &&& final (backend).contents() == old(backend).contents()
            },
    {
        let r = self.buffer.realize(engine, backend);
        proof {
            if r is Ok {
                crate::schedule::lemma_reaches_self(old(engine).nodes@, self.buffer.0 as int);
                assert(crate::schedule::reaches(
                    old(engine).nodes@,
                    self.buffer.0 as int,
                    self.buffer.0 as int,
                ));
            }
        }
        r
    }

    /// Realize this tensor's value and download it to the host.
    pub fn realize_to_host<B: Backend>(&self, engine: &mut Engine, backend: &mut B) -> (r: Result<
        Vec<u32>,
        RealizeError,
    >)
        requires
            old(engine).wf(),
            old(engine).backend_fits(old(backend).contents()),
            self.buffer.0 < old(engine).nodes@.len(),
        ensures
            final (engine).wf(),
            final (engine).backend_fits(final (backend).contents()),
            final (engine).tensors@ == old(engine).tensors@,
            final (engine).nodes@.len() == old(engine).nodes@.len(),
            match r {
                Ok(v) => {
                    &&& v@ == final (backend).contents()[self.buffer.0 as int]
                    &&& crate::schedule::node_result_ok::<B>(
                        old(engine).nodes@,
                        old(backend).contents(),
                        final (backend).contents(),
                        self.buffer.0 as int,
                    )
                },
                Err(_) => crate::schedule::has_cycle_from(
                    old(engine).nodes@,
                    self.buffer.0 as int,
                ),
            },
    {
        let rr = self.realize(engine, backend);
        match rr {
            Err(e) => Err(e),
            Ok(()) => {
                proof {
                    assert(node_wf(engine.nodes@, engine.tensors@.len(), self.buffer.0 as int));
                }
                let h = engine.nodes[self.buffer.0].device_buffer.unwrap();
                Ok(backend.read_buffer(&h))
            },
        }
    }

    /// One training step: realize this tensor's value, run the backward pass,
    /// then apply `sgd_update`: every tensor whose gradient and value are
    /// realized with this tensor's element count has its gradient scaled by
    /// the learning-rate word and its value reduced by the scaled gradient,
    /// in place on the device.  The learning rate is the 32-bit word of its
    /// IEEE-754 single-precision encoding.
    ///
    /// On success the final device state is exactly `sgd_update`'s effect on
    /// some intermediate state left by the backward pass, in which every
    /// accumulator is realized and already-realized value buffers keep their
    /// words.
    #[verifier::rlimit(50)]
    pub fn apply_backward<B: Backend>(
        &self,
        engine: &mut Engine,
        backend: &mut B,
        lr: u32,
    ) -> (r: Result<(), RealizeError>)
        requires
            old(engine).wf(),
            old(engine).backend_fits(old(backend).contents()),
            self.id.0 < old(engine).tensors@.len(),
        ensures
            final (engine).wf(),
            final (engine).backend_fits(final (backend).contents()),
            gradients_preserved(*old(engine), *final (engine)),
            r is Ok ==> forall|t: int|
                0 <= t < old(engine).tensors@.len() && old(engine).tensors@[t].requires_grad
                    ==> (#[trigger] final (engine).tensors@[t]).gradient is Some,
            r is Ok ==> {
                let vb = old(engine).tensors@[self.id.0 as int].buffer.0 as int;
                let step = final (engine).nodes@[vb].size;
                &&& final (engine).nodes@[vb].device_buffer is Some
                &&& (forall|t: int|
                    0 <= t < final (engine).tensors@.len() && (#[trigger] final (engine).tensors@[t]).gradient is Some ==> final (engine).nodes@[final (engine).tensors@[t].gradient.unwrap().0 as int].device_buffer is Some)
                &&& exists|m_mid: Map<int, Seq<u32>>|
                    {
                        &&& final (engine).backend_fits(m_mid)
                        &&& (forall|t: int|
                            0 <= t < final (engine).tensors@.len() && #[trigger] sgd_eligible(
                                *final (engine),
                                t,
                                step,
                            ) ==> {
                                let g = final (engine).tensors@[t].gradient.unwrap().0 as int;
                                let v = final (engine).tensors@[t].buffer.0 as int;
                                &&& final (backend).contents()[g] == scaled_gradient::<B>(
                                    m_mid,
                                    g,
                                    step as nat,
                                    lr,
                                )
                                &&& final (backend).contents()[v] == stepped_value::<B>(
                                    m_mid,
                                    v,
                                    g,
                                    step as nat,
                                    lr,
                                )
                            })
                        &&& (forall|id: int|
                            id != crate::handle::LAZYBUFFER_HANDLE_NULL_ID as int && !sgd_touches(
                                *final (engine),
                                step,
                                id,
                            ) ==> ((#[trigger] final (backend).contents().dom().contains(id)
                                <==> m_mid.dom().contains(id)) && (m_mid.dom().contains(id)
                                ==> final (backend).contents()[id] == m_mid[id])))
                    }
            },
            r is Err ==> exists|x: int|
                0 <= x < final (engine).nodes@.len() && crate::schedule::has_cycle_from(
                    final (engine).nodes@,
                    x,
                ),
    {
        proof {
            assert(tensor_wf(engine.nodes@, engine.tensors@, self.id.0 as int));
        }
        let root_buffer = engine.tensors[self.id.0].buffer;
        let r1 = root_buffer.realize(engine, backend);
        if let Err(e) = r1 {
            return Err(e);
        }
        proof {
            crate::schedule::lemma_reaches_self(old(engine).nodes@, root_buffer.0 as int);
            assert(crate::schedule::reaches(
                old(engine).nodes@,
                root_buffer.0 as int,
                root_buffer.0 as int,
            ));
            assert(engine.nodes@[root_buffer.0 as int].device_buffer is Some);
        }
        let ghost e_r = *engine;
        let r2 = self.backward(engine, backend);
        if let Err(e) = r2 {
            proof {
                let t = choose|t: int|
                    0 <= t < engine.tensors@.len() && (#[trigger] engine.tensors@[t]).gradient is Some
                        && crate::schedule::has_cycle_from(
                        engine.nodes@,
                        engine.tensors@[t].gradient.unwrap().0 as int,
                    );
                assert(tensor_wf(engine.nodes@, engine.tensors@, t));
            }
            return Err(e);
        }
        proof {
            assert(tensor_wf(engine.nodes@, engine.tensors@, self.id.0 as int));
            assert(engine.tensors@[self.id.0 as int].buffer == root_buffer);
            assert(engine.nodes@[root_buffer.0 as int].device_buffer is Some);
        }
        let size = engine.nodes[root_buffer.0].size;
        let ghost m_mid = backend.contents();
        sgd_update(engine, backend, size, lr);
        proof {
            assert(engine.backend_fits(m_mid));
        }
        Ok(())
    }
}

/// Whether one training step updates a tensor: it carries a gradient whose
/// accumulator and value buffer are both realized, and the accumulator has
/// the step's element count.
pub open spec fn sgd_eligible(e: Engine, t: int, size: usize) -> bool {
    &&& e.tensors@[t].gradient is Some
    &&& e.nodes@[e.tensors@[t].gradient.unwrap().0 as int].device_buffer is Some
    &&& e.nodes@[e.tensors@[t].buffer.0 as int].device_buffer is Some
    &&& e.nodes@[e.tensors@[t].gradient.unwrap().0 as int].size == size
}

/// The training step writes this buffer identity: it is the accumulator or
/// the value buffer of some tensor the step updates.
pub open spec fn sgd_touches(e: Engine, size: usize, id: int) -> bool {
    exists|t: int|
        0 <= t < e.tensors@.len() && #[trigger] sgd_eligible(e, t, size) && (
        e.tensors@[t].gradient.unwrap().0 as int == id || e.tensors@[t].buffer.0 as int == id)
}

/// The scaled gradient the training step stores: the element-wise product of
/// the accumulator's words with the learning-rate word.
pub open spec fn scaled_gradient<B: Backend>(
    m: Map<int, Seq<u32>>,
    g: int,
    size: nat,
    lr: u32,
) -> Seq<u32> {
    Seq::new(size, |i: int| B::word_op(crate::backend::BinOp::Multiply, m[g][i], lr))
}

/// The stepped value the training step stores: the element-wise difference of
/// the value's words and the scaled gradient.
pub open spec fn stepped_value<B: Backend>(
    m: Map<int, Seq<u32>>,
    v: int,
    g: int,
    size: nat,
    lr: u32,
) -> Seq<u32> {
    Seq::new(
        size,
        (|i: int| B::word_op(
            crate::backend::BinOp::Subtract,
            m[v][i],
            scaled_gradient::<B>(m, g, size, lr)[i],
        )),
    )
}

/// The update phase of the training step: for every tensor whose gradient and
/// value are realized with the step's element count, scale the gradient by
/// the learning-rate word and subtract it from the value, both in place on
/// the device (the destination of each operation aliases an operand).  The
/// registry is only read — the update creates no nodes — and no buffer other
/// than the updated gradients, values and the learning-rate temporary is
/// touched.
#[verifier::loop_isolation(false)]
#[verifier::rlimit(100)]
pub fn sgd_update<B: Backend>(engine: &Engine, backend: &mut B, size: usize, lr: u32)
    requires
        engine.wf(),
        engine.backend_fits(old(backend).contents()),
    ensures
        engine.backend_fits(final (backend).contents()),
        forall|t: int|
            0 <= t < engine.tensors@.len() && #[trigger] sgd_eligible(*engine, t, size) ==> {
                let g = engine.tensors@[t].gradient.unwrap().0 as int;
                let v = engine.tensors@[t].buffer.0 as int;
                &&& final (backend).contents().dom().contains(g)
                &&& final (backend).contents().dom().contains(v)
                &&& final (backend).contents()[g] == scaled_gradient::<B>(
                    old(backend).contents(),
                    g,
                    size as nat,
                    lr,
                )
                &&& final (backend).contents()[v] == stepped_value::<B>(
                    old(backend).contents(),
                    v,
                    g,
                    size as nat,
                    lr,
                )
            },
        forall|id: int|
            id != crate::handle::LAZYBUFFER_HANDLE_NULL_ID as int && !sgd_touches(
                *engine,
                size,
                id,
            ) ==> ((#[trigger] final (backend).contents().dom().contains(id) <==> old(
                backend,
            ).contents().dom().contains(id)) && (old(backend).contents().dom().contains(id)
                ==> final (backend).contents()[id] == old(backend).contents()[id])),
        final (backend).contents().dom().contains(crate::handle::LAZYBUFFER_HANDLE_NULL_ID as int),
        final (backend).contents()[crate::handle::LAZYBUFFER_HANDLE_NULL_ID as int].len() == size,
        forall|i: int|
            0 <= i < size
                ==> final (backend).contents()[crate::handle::LAZYBUFFER_HANDLE_NULL_ID as int][i]
                == lr,
{
    let ghost m00 = backend.contents();
    let ghost null_id = crate::handle::LAZYBUFFER_HANDLE_NULL_ID as int;
    let lr_vec = crate::schedule::make_words(lr, size);
    let temp = backend.allocate_temporary_buffer(&lr_vec, size);
    let node_total = engine.nodes.len();
    proof {
        assert forall|i: int|
            0 <= i < engine.nodes@.len() && #[trigger] backend.contents().dom().contains(i)
            implies backend.contents()[i].len() == engine.nodes@[i].size by {
            if i != null_id {
                assert(m00.dom().contains(i));
            } else {
                assert(node_total <= usize::MAX);
            }
        }
        assert(engine.backend_fits(backend.contents()));
    }
    let tensor_total = engine.tensors.len();
    proof {
        assert forall|tt: int|
            0 <= tt < tensor_total && #[trigger] sgd_eligible(*engine, tt, size) implies {
            let g = engine.tensors@[tt].gradient.unwrap().0 as int;
            let v = engine.tensors@[tt].buffer.0 as int;
            &&& m00.dom().contains(g)
            &&& m00.dom().contains(v)
            &&& backend.contents().dom().contains(g)
            &&& backend.contents().dom().contains(v)
            &&& backend.contents()[g] == m00[g]
            &&& backend.contents()[v] == m00[v]
        } by {
            assert(tensor_wf(engine.nodes@, engine.tensors@, tt));
            let gh = engine.tensors@[tt].gradient.unwrap();
            let vh = engine.tensors@[tt].buffer;
            assert(node_wf(engine.nodes@, engine.tensors@.len(), gh.0 as int));
            assert(gh.0 < node_total && vh.0 < node_total && node_total <= usize::MAX);
            assert((engine.nodes@[gh.0 as int].device_buffer) is Some);
            assert((engine.nodes@[vh.0 as int].device_buffer) is Some);
            assert(m00.dom().contains(gh.0 as int));
            assert(m00.dom().contains(vh.0 as int));
        }
    }
    let mut t: usize = 0;
    while t < tensor_total
        invariant
            engine.backend_fits(backend.contents()),
            t <= tensor_total,
            backend.contents().dom().contains(null_id),
            backend.contents()[null_id].len() == size,
            forall|i: int| 0 <= i < size ==> backend.contents()[null_id][i] == lr,
            forall|tt: int|
                0 <= tt < t && #[trigger] sgd_eligible(*engine, tt, size) ==> {
                    let g = engine.tensors@[tt].gradient.unwrap().0 as int;
                    let v = engine.tensors@[tt].buffer.0 as int;
                    &&& backend.contents().dom().contains(g)
                    &&& backend.contents().dom().contains(v)
                    &&& backend.contents()[g] == scaled_gradient::<B>(m00, g, size as nat, lr)
                    &&& backend.contents()[v] == stepped_value::<B>(m00, v, g, size as nat, lr)
                },
            forall|tt: int|
                t <= tt < tensor_total && #[trigger] sgd_eligible(*engine, tt, size) ==> {
                    let g = engine.tensors@[tt].gradient.unwrap().0 as int;
                    let v = engine.tensors@[tt].buffer.0 as int;
                    &&& backend.contents().dom().contains(g)
                    &&& backend.contents().dom().contains(v)
                    &&& backend.contents()[g] == m00[g]
                    &&& backend.contents()[v] == m00[v]
                    &&& m00.dom().contains(g)
                    &&& m00.dom().contains(v)
                },
            forall|id: int|
                id != null_id && !sgd_touches(*engine, size, id) ==> ((
                #[trigger] backend.contents().dom().contains(id) <==> m00.dom().contains(id)) && (
                m00.dom().contains(id) ==> backend.contents()[id] == m00[id])),
        decreases tensor_total - t,
    {
        let ghost m_it = backend.contents();
        proof {
            assert forall|id: int|
                id != null_id && !sgd_touches(*engine, size, id) implies ((
            #[trigger] m_it.dom().contains(id) <==> m00.dom().contains(id)) && (m00.dom().contains(
                id,
            ) ==> m_it[id] == m00[id])) by {
                assert(backend.contents().dom().contains(id) <==> m00.dom().contains(id));
                assert(m00.dom().contains(id) ==> backend.contents()[id] == m00[id]);
            }
        }
        let trow = engine.tensors[t];
        let mut updated = false;
        if let Some(gh) = trow.gradient {
            proof {
                assert(tensor_wf(engine.nodes@, engine.tensors@, t as int));
                assert(node_wf(engine.nodes@, engine.tensors@.len(), gh.0 as int));
                assert(node_wf(engine.nodes@, engine.tensors@.len(), trow.buffer.0 as int));
            }
            let g_realized = engine.nodes[gh.0].device_buffer.is_some();
            let v_realized = engine.nodes[trow.buffer.0].device_buffer.is_some();
            let size_matches = engine.nodes[gh.0].size == size;
            if g_realized && v_realized && size_matches {
                proof {
                    assert(sgd_eligible(*engine, t as int, size));
                    assert(gh.0 < node_total && trow.buffer.0 < node_total);
                    assert(node_total <= usize::MAX);
                }
                let gb = BufferHandle { id: gh, size };
                let vbh = BufferHandle { id: trow.buffer, size };
                backend.multiply(&gb, &temp, &gb, size);
                proof {
                    lemma_sgd_fits(*engine, backend.contents(), gh.0 as int, size);
                    assert(backend.contents()[gh.0 as int] =~= scaled_gradient::<B>(
                        m00,
                        gh.0 as int,
                        size as nat,
                        lr,
                    ));
                }
                backend.subtract(&vbh, &gb, &vbh, size);
                proof {
                    lemma_sgd_fits(*engine, backend.contents(), trow.buffer.0 as int, size);
                    assert(backend.contents()[trow.buffer.0 as int] =~= stepped_value::<B>(
                        m00,
                        trow.buffer.0 as int,
                        gh.0 as int,
                        size as nat,
                        lr,
                    ));
                    assert forall|tt: int|
                        0 <= tt < tensor_total && tt != t as int && #[trigger] sgd_eligible(
                            *engine,
                            tt,
                            size,
                        ) implies engine.tensors@[tt].gradient.unwrap().0 != gh.0
                        && engine.tensors@[tt].gradient.unwrap().0 != trow.buffer.0
                        && engine.tensors@[tt].buffer.0 != gh.0 && engine.tensors@[tt].buffer.0
                        != trow.buffer.0 by {
                        lemma_sgd_buffers_distinct(*engine, t as int, tt);
                    }
                }
                updated = true;
            }
        }
        proof {
            if !updated {
                assert(!sgd_eligible(*engine, t as int, size));
                assert(backend.contents() == m_it);
            }
            assert forall|id: int|
                id != null_id && !sgd_touches(*engine, size, id) implies ((
            #[trigger] backend.contents().dom().contains(id) <==> m00.dom().contains(id)) && (
            m00.dom().contains(id) ==> backend.contents()[id] == m00[id])) by {
                assert(!(sgd_eligible(*engine, t as int, size) && (
                engine.tensors@[t as int].gradient.unwrap().0 as int == id
                    || engine.tensors@[t as int].buffer.0 as int == id)));
                assert(id != null_id);
                assert(!sgd_touches(*engine, size, id));
                assert(m_it.dom().contains(id) <==> m00.dom().contains(id));
                assert(m00.dom().contains(id) ==> m_it[id] == m00[id]);
                assert(backend.contents().dom().contains(id) <==> m_it.dom().contains(id));
                assert(m_it.dom().contains(id) ==> backend.contents()[id] == m_it[id]);
            }
        }
        t = t + 1;
    }
}

/// Two distinct tensors share none of their value and accumulator buffers:
/// each buffer is owned by exactly one tensor, and a tensor's accumulator is
/// never its value buffer.
proof fn lemma_sgd_buffers_distinct(e: Engine, t: int, s: int)
    requires
        e.wf(),
        0 <= t < e.tensors@.len(),
        0 <= s < e.tensors@.len(),
        t != s,
        e.tensors@[t].gradient is Some,
        e.tensors@[s].gradient is Some,
    ensures
        e.tensors@[s].gradient.unwrap().0 != e.tensors@[t].gradient.unwrap().0,
        e.tensors@[s].gradient.unwrap().0 != e.tensors@[t].buffer.0,
        e.tensors@[s].buffer.0 != e.tensors@[t].gradient.unwrap().0,
        e.tensors@[s].buffer.0 != e.tensors@[t].buffer.0,
{
    assert(tensor_wf(e.nodes@, e.tensors@, t));
    assert(tensor_wf(e.nodes@, e.tensors@, s));
}

/// After an in-place update wrote a buffer of its own size, the backend still
/// fits the registry, and the learning-rate buffer is untouched.
proof fn lemma_sgd_fits(e: Engine, m: Map<int, Seq<u32>>, written: int, size: usize)
    requires
        0 <= written < e.nodes@.len(),
        e.nodes@[written].size == size,
        forall|i: int|
            0 <= i < e.nodes@.len() && i != written && #[trigger] m.dom().contains(i) ==> m[i].len()
                == e.nodes@[i].size,
        m.dom().contains(written) && m[written].len() == size,
        forall|i: int|
            0 <= i < e.nodes@.len() && (#[trigger] e.nodes@[i].device_buffer) is Some
                ==> m.dom().contains(i),
        forall|i: int|
            #[trigger] m.dom().contains(i) ==> 0 <= i < e.nodes@.len() || i
                == crate::handle::LAZYBUFFER_HANDLE_NULL_ID as int,
    ensures
        e.backend_fits(m),
{
}

/// One write of the gradient walk, recorded for the specification: which
/// tensor was visited, the partial that reached it, which operand position
/// received, the tensor written into, its accumulator slot and the
/// expression written there.
pub struct GradientWrite {
    pub parent: usize,
    pub chain: LazyBufferHandle,
    pub second_operand: bool,
    pub target: usize,
    pub acc: LazyBufferHandle,
    pub expr: LazyBufferHandle,
}

/// A scratch creation node of the given element count: the shape of the
/// walk's constant inputs (the all-ones seed, the unit-scale factors).
pub open spec fn scratch_creation(nodes: Seq<LazyBuffer>, h: LazyBufferHandle, size: int) -> bool {
    &&& h.0 < nodes.len()
    &&& nodes[h.0 as int].kind is Scratch
    &&& nodes[h.0 as int].operation is Creation
    &&& nodes[h.0 as int].size == size
}

/// A registered scratch node whose operation carries this normalized key.
pub open spec fn scratch_keyed(nodes: Seq<LazyBuffer>, h: LazyBufferHandle, op: LazyOp) -> bool {
    &&& h.0 < nodes.len()
    &&& nodes[h.0 as int].kind is Scratch
    &&& crate::node::spec_op_key(nodes[h.0 as int].operation) == crate::node::spec_op_key(op)
}

/// The expression the backward rules write for one operand of a visited
/// binary node, given the incoming partial `chain`: the chain itself for
/// addition and the first operand of subtraction; the chain times a
/// unit-scale scratch constant for the second operand of subtraction; the
/// sibling operand times the chain for multiplication; the chain over the
/// divisor for the dividend of a division; and the dividend times the chain,
/// scaled, over the squared divisor for the divisor.  Commutative products
/// are pinned by their normalized key, since the scratch-op cache shares a
/// node between the two operand orders.
pub open spec fn rule_expression(
    nodes: Seq<LazyBuffer>,
    parent_op: LazyOp,
    second: bool,
    chain: LazyBufferHandle,
    expr: LazyBufferHandle,
) -> bool {
    match parent_op {
        LazyOp::Add(_, _) => expr == chain,
        LazyOp::Subtract(_, _) => if !second {
            expr == chain
        } else {
            exists|neg: LazyBufferHandle|
                #![auto]
                scratch_creation(nodes, neg, nodes[chain.0 as int].size as int) && scratch_keyed(
                    nodes,
                    expr,
                    LazyOp::Multiply(chain, neg),
                )
        },
        LazyOp::Multiply(a, b) => scratch_keyed(
            nodes,
            expr,
            LazyOp::Multiply(
                if second {
                    a
                } else {
                    b
                },
                chain,
            ),
        ),
        LazyOp::Divide(a, b) => if !second {
            scratch_keyed(nodes, expr, LazyOp::Divide(chain, b))
        } else {
            exists|w: (LazyBufferHandle, LazyBufferHandle, LazyBufferHandle, LazyBufferHandle)|
                #![auto]
                {
                    &&& scratch_keyed(nodes, w.0, LazyOp::Multiply(a, chain))
                    &&& scratch_creation(nodes, w.1, nodes[chain.0 as int].size as int)
                    &&& scratch_keyed(nodes, w.2, LazyOp::Multiply(w.0, w.1))
                    &&& scratch_keyed(nodes, w.3, LazyOp::Multiply(b, b))
                    &&& scratch_keyed(nodes, expr, LazyOp::Divide(w.2, w.3))
                }
        },
        _ => false,
    }
}

/// One recorded write is faithful to the backward rules in the given state.
pub open spec fn write_ok(nodes: Seq<LazyBuffer>, tensors: Seq<Tensor>, w: GradientWrite) -> bool {
    &&& w.parent < tensors.len()
    &&& w.target < tensors.len()
    &&& tensors[w.target as int].requires_grad
    &&& tensors[w.target as int].gradient == Some(w.acc)
    &&& w.acc.0 < nodes.len()
    &&& w.chain.0 < nodes.len()
    &&& nodes[w.chain.0 as int].kind is Scratch
    &&& w.expr.0 < nodes.len()
    &&& nodes[w.expr.0 as int].kind is Scratch
    &&& tensors[w.parent as int].buffer.0 < nodes.len()
    &&& is_binary_op(nodes[tensors[w.parent as int].buffer.0 as int].operation)
    &&& {
        let pop = nodes[tensors[w.parent as int].buffer.0 as int].operation;
        let operand = if w.second_operand {
            op_operands(pop).1
        } else {
            op_operands(pop).0
        };
        &&& operand.0 < nodes.len()
        &&& (nodes[operand.0 as int].kind matches LazybufferType::TensorData(o) && o.0 == w.target)
        &&& rule_expression(nodes, pop, w.second_operand, w.chain, w.expr)
    }
}

/// Every write's partial is the all-ones seed arriving at the root, or the
/// expression of an earlier write into the tensor it visits: the chain rule's
/// linkage.
pub open spec fn trace_linked(tr: Seq<GradientWrite>, root: usize, seed: LazyBufferHandle) -> bool {
    forall|k: int|
        0 <= k < tr.len() ==> (((#[trigger] tr[k]).parent == root && tr[k].chain == seed) || exists|
            j: int,
        | 0 <= j < k && (#[trigger] tr[j]).target == tr[k].parent && tr[j].expr == tr[k].chain)
}

/// Some recorded write targets this tensor.
pub open spec fn trace_targets(tr: Seq<GradientWrite>, t: int) -> bool {
    exists|k: int| 0 <= k < tr.len() && (#[trigger] tr[k]).target == t
}

/// The last write targeting a tensor is the one its accumulator slot holds:
/// the slot's operation overwrites the accumulator with that write's
/// expression.
pub open spec fn trace_determines_acc(nodes: Seq<LazyBuffer>, tr: Seq<GradientWrite>, t: int) -> bool {
    exists|k: int|
        #![auto]
        0 <= k < tr.len() && tr[k].target == t && nodes[tr[k].acc.0 as int].operation
            == LazyOp::Memset(tr[k].acc, tr[k].expr) && (forall|k2: int|
            k < k2 < tr.len() ==> (#[trigger] tr[k2]).target != t)
}

/// The full record of one backward pass over the final state: the seed is an
/// all-ones-shaped scratch creation of the root's element count, every write
/// follows the rules, the writes are chain-linked from the root, and every
/// targeted tensor's accumulator holds its last write, whose realized
/// contents equal the written expression's contents.
pub open spec fn gradient_walk_recorded(
    e: Engine,
    m: Map<int, Seq<u32>>,
    root: int,
    tr: Seq<GradientWrite>,
    seed: LazyBufferHandle,
) -> bool {
    &&& scratch_creation(
        e.nodes@,
        seed,
        e.nodes@[e.tensors@[root].buffer.0 as int].size as int,
    )
    &&& (forall|k: int| 0 <= k < tr.len() ==> write_ok(e.nodes@, e.tensors@, #[trigger] tr[k]))
    &&& trace_linked(tr, root as usize, seed)
    &&& (forall|t: int|
        0 <= t < e.tensors@.len() && #[trigger] trace_targets(tr, t) ==> {
            let acc = e.tensors@[t].gradient.unwrap();
            &&& trace_determines_acc(e.nodes@, tr, t)
            &&& m.dom().contains(acc.0 as int)
            &&& m[acc.0 as int] == m[memset_source(e.nodes@, acc.0 as int).unwrap().0 as int]
        })
}

/// Rule shapes survive any engine step that leaves the referenced scratch and
/// value nodes' operations in place.
proof fn lemma_write_ok_stable(
    nodes1: Seq<LazyBuffer>,
    nodes2: Seq<LazyBuffer>,
    tensors: Seq<Tensor>,
    w: GradientWrite,
)
    requires
        write_ok(nodes1, tensors, w),
        nodes1.len() <= nodes2.len(),
        forall|j: int|
            0 <= j < nodes1.len() && (#[trigger] nodes1[j].kind) is Scratch ==> nodes2[j]
                == nodes1[j],
        forall|j: int|
            0 <= j < nodes1.len() ==> (#[trigger] nodes2[j]).kind == nodes1[j].kind,
        forall|t: int|
            0 <= t < tensors.len() ==> nodes2[(#[trigger] tensors[t]).buffer.0 as int]
                == nodes1[tensors[t].buffer.0 as int],
    ensures
        write_ok(nodes2, tensors, w),
{
    let pop = nodes1[tensors[w.parent as int].buffer.0 as int].operation;
    assert(nodes2[tensors[w.parent as int].buffer.0 as int] == nodes1[tensors[w.parent as int].buffer.0 as int]);
    match pop {
        LazyOp::Subtract(_, _) => {
            if w.second_operand {
                let neg = choose|neg: LazyBufferHandle|
                    #![auto]
                    scratch_creation(nodes1, neg, nodes1[w.chain.0 as int].size as int)
                        && scratch_keyed(nodes1, w.expr, LazyOp::Multiply(w.chain, neg));
                assert(nodes2[neg.0 as int] == nodes1[neg.0 as int]);
                assert(nodes2[w.expr.0 as int] == nodes1[w.expr.0 as int]);
                assert(nodes2[w.chain.0 as int] == nodes1[w.chain.0 as int]);
                assert(scratch_creation(nodes2, neg, nodes2[w.chain.0 as int].size as int)
                    && scratch_keyed(nodes2, w.expr, LazyOp::Multiply(w.chain, neg)));
            } else {
                assert(nodes2[w.chain.0 as int] == nodes1[w.chain.0 as int]);
            }
        },
        LazyOp::Divide(a, _) => {
            if w.second_operand {
                let wit = choose|
                    wit: (LazyBufferHandle, LazyBufferHandle, LazyBufferHandle, LazyBufferHandle),
                |
                    #![auto]
                    {
                        &&& scratch_keyed(nodes1, wit.0, LazyOp::Multiply(a, w.chain))
                        &&& scratch_creation(nodes1, wit.1, nodes1[w.chain.0 as int].size as int)
                        &&& scratch_keyed(nodes1, wit.2, LazyOp::Multiply(wit.0, wit.1))
                        &&& scratch_keyed(
                            nodes1,
                            wit.3,
                            LazyOp::Multiply(
                                op_operands(pop).1,
                                op_operands(pop).1,
                            ),
                        )
                        &&& scratch_keyed(nodes1, w.expr, LazyOp::Divide(wit.2, wit.3))
                    };
                assert(nodes2[wit.0.0 as int] == nodes1[wit.0.0 as int]);
                assert(nodes2[wit.1.0 as int] == nodes1[wit.1.0 as int]);
                assert(nodes2[wit.2.0 as int] == nodes1[wit.2.0 as int]);
                assert(nodes2[wit.3.0 as int] == nodes1[wit.3.0 as int]);
                assert(nodes2[w.expr.0 as int] == nodes1[w.expr.0 as int]);
                assert(nodes2[w.chain.0 as int] == nodes1[w.chain.0 as int]);
                assert({
                    &&& scratch_keyed(nodes2, wit.0, LazyOp::Multiply(a, w.chain))
                    &&& scratch_creation(nodes2, wit.1, nodes2[w.chain.0 as int].size as int)
                    &&& scratch_keyed(nodes2, wit.2, LazyOp::Multiply(wit.0, wit.1))
                    &&& scratch_keyed(
                        nodes2,
                        wit.3,
                        LazyOp::Multiply(op_operands(pop).1, op_operands(pop).1),
                    )
                    &&& scratch_keyed(nodes2, w.expr, LazyOp::Divide(wit.2, wit.3))
                });
            } else {
                assert(nodes2[w.expr.0 as int] == nodes1[w.expr.0 as int]);
            }
        },
        _ => {
            assert(nodes2[w.expr.0 as int] == nodes1[w.expr.0 as int]);
            assert(nodes2[w.chain.0 as int] == nodes1[w.chain.0 as int]);
        },
    }
}

/// Every queue entry's partial is the seed arriving at the root, or the
/// expression of a recorded write into the entry's tensor.
pub open spec fn queue_prov(
    q: Seq<GradientTask>,
    tr: Seq<GradientWrite>,
    root: TensorId,
    seed: LazyBufferHandle,
) -> bool {
    forall|k: int|
        0 <= k < q.len() ==> (((#[trigger] q[k]).tensor == root && q[k].chain == seed) || exists|
            j: int,
        | 0 <= j < tr.len() && (#[trigger] tr[j]).target == q[k].tensor.0 && tr[j].expr
            == q[k].chain)
}

/// One walk step keeps the chain-rule linkage: the recorded write (if any)
/// inherits the processed entry's provenance, and the enqueued entry (if any)
/// is justified by that write.
proof fn lemma_walk_step_book(
    q0: Seq<GradientTask>,
    q1: Seq<GradientTask>,
    tr0: Seq<GradientWrite>,
    tr1: Seq<GradientWrite>,
    task: GradientTask,
    h0: int,
    root: TensorId,
    seed: LazyBufferHandle,
)
    requires
        0 <= h0 < q0.len(),
        q0[h0] == task,
        q1.len() >= q0.len(),
        q1.len() <= q0.len() + 1,
        forall|k: int| 0 <= k < q0.len() ==> q1[k] == q0[k],
        tr1.len() >= tr0.len(),
        tr1.len() <= tr0.len() + 1,
        forall|k: int| 0 <= k < tr0.len() ==> tr1[k] == tr0[k],
        q1.len() - q0.len() == tr1.len() - tr0.len(),
        tr1.len() > tr0.len() ==> {
            let w = tr1.last();
            &&& w.parent == task.tensor.0
            &&& w.chain == task.chain
            &&& q1.last() == (GradientTask { tensor: TensorId(w.target), chain: w.expr })
        },
        queue_prov(q0, tr0, root, seed),
        trace_linked(tr0, root.0, seed),
    ensures
        queue_prov(q1, tr1, root, seed),
        trace_linked(tr1, root.0, seed),
{
    assert forall|k: int|
        0 <= k < tr1.len() implies (((#[trigger] tr1[k]).parent == root.0 && tr1[k].chain == seed)
        || exists|j: int|
        0 <= j < k && (#[trigger] tr1[j]).target == tr1[k].parent && tr1[j].expr
            == tr1[k].chain) by {
        if k < tr0.len() {
            assert(tr0[k] == tr1[k]);
            if !(tr0[k].parent == root.0 && tr0[k].chain == seed) {
                let j = choose|j: int|
                    0 <= j < k && (#[trigger] tr0[j]).target == tr0[k].parent && tr0[j].expr
                        == tr0[k].chain;
                assert(tr1[j] == tr0[j]);
            }
        } else {
            let w = tr1.last();
            if !(task.tensor == root && task.chain == seed) {
                let j = choose|j: int|
                    0 <= j < tr0.len() && (#[trigger] tr0[j]).target == task.tensor.0 && tr0[j].expr
                        == task.chain;
                assert(tr1[j] == tr0[j]);
                assert(tr1[j].target == w.parent && tr1[j].expr == w.chain);
            }
        }
    }
    assert forall|k: int|
        0 <= k < q1.len() implies (((#[trigger] q1[k]).tensor == root && q1[k].chain == seed)
        || exists|j: int|
        0 <= j < tr1.len() && (#[trigger] tr1[j]).target == q1[k].tensor.0 && tr1[j].expr
            == q1[k].chain) by {
        if k < q0.len() {
            assert(q1[k] == q0[k]);
            if !(q0[k].tensor == root && q0[k].chain == seed) {
                let j = choose|j: int|
                    0 <= j < tr0.len() && (#[trigger] tr0[j]).target == q0[k].tensor.0
                        && tr0[j].expr == q0[k].chain;
                assert(tr1[j] == tr0[j]);
            }
        } else {
            let w = tr1.last();
            assert(tr1[tr1.len() - 1].target == q1[k].tensor.0 && tr1[tr1.len() - 1].expr
                == q1[k].chain);
        }
    }
}

/// The trace state survives a pure registry append.
proof fn lemma_trace_state_grow(e1: Engine, e2: Engine, tr: Seq<GradientWrite>)
    requires
        e1.wf(),
        trace_state_ok(e1, tr),
        e2.tensors@ == e1.tensors@,
        e2.nodes@.len() >= e1.nodes@.len(),
        forall|j: int| 0 <= j < e1.nodes@.len() ==> e2.nodes@[j] == e1.nodes@[j],
    ensures
        trace_state_ok(e2, tr),
{
    assert forall|k: int|
        0 <= k < tr.len() implies write_ok(e2.nodes@, e2.tensors@, #[trigger] tr[k]) by {
        assert(write_ok(e1.nodes@, e1.tensors@, tr[k]));
        assert forall|t: int|
            0 <= t < e1.tensors@.len() implies e2.nodes@[(#[trigger] e1.tensors@[t]).buffer.0 as int]
            == e1.nodes@[e1.tensors@[t].buffer.0 as int] by {
            assert(tensor_wf(e1.nodes@, e1.tensors@, t));
        }
        lemma_write_ok_stable(e1.nodes@, e2.nodes@, e2.tensors@, tr[k]);
    }
    assert forall|t: int| #[trigger] trace_targets(tr, t) implies {
        &&& 0 <= t < e2.tensors@.len()
        &&& e2.tensors@[t].gradient is Some
        &&& trace_determines_acc(e2.nodes@, tr, t)
        &&& e2.nodes@[e2.tensors@[t].gradient.unwrap().0 as int].device_buffer is None
    } by {
        assert(tensor_wf(e1.nodes@, e1.tensors@, t));
        let k = choose|k: int|
            #![auto]
            0 <= k < tr.len() && tr[k].target == t && e1.nodes@[tr[k].acc.0 as int].operation
                == LazyOp::Memset(tr[k].acc, tr[k].expr) && (forall|k2: int|
                k < k2 < tr.len() ==> (#[trigger] tr[k2]).target != t);
        assert(write_ok(e1.nodes@, e1.tensors@, tr[k]));
        assert(e2.nodes@[tr[k].acc.0 as int] == e1.nodes@[tr[k].acc.0 as int]);
        assert(trace_determines_acc(e2.nodes@, tr, t));
    }
}

/// Rule shapes survive commitment: the created-marker rewrite keeps every
/// node's kind, size, normalized key, and creation-ness, and leaves binary
/// and memset operations alone.
proof fn lemma_write_ok_commit(
    nodes1: Seq<LazyBuffer>,
    nodes2: Seq<LazyBuffer>,
    tensors: Seq<Tensor>,
    w: GradientWrite,
)
    requires
        write_ok(nodes1, tensors, w),
        nodes2.len() == nodes1.len(),
        forall|j: int|
            0 <= j < nodes1.len() ==> #[trigger] nodes2[j] == nodes1[j] || nodes2[j]
                == crate::schedule::committed_node(nodes1[j], j),
    ensures
        write_ok(nodes2, tensors, w),
{
    assert forall|j: int|
        0 <= j < nodes1.len() implies (#[trigger] nodes2[j]).kind == nodes1[j].kind && nodes2[j].size
        == nodes1[j].size && crate::node::spec_op_key(nodes2[j].operation)
        == crate::node::spec_op_key(nodes1[j].operation) && (nodes1[j].operation is Creation
        ==> nodes2[j].operation is Creation) && (is_binary_op(nodes1[j].operation)
        ==> nodes2[j].operation == nodes1[j].operation) by {}
    let pop = nodes1[tensors[w.parent as int].buffer.0 as int].operation;
    assert(nodes2[tensors[w.parent as int].buffer.0 as int].operation == pop);
    match pop {
        LazyOp::Subtract(_, _) => {
            if w.second_operand {
                let neg = choose|neg: LazyBufferHandle|
                    #![auto]
                    scratch_creation(nodes1, neg, nodes1[w.chain.0 as int].size as int)
                        && scratch_keyed(nodes1, w.expr, LazyOp::Multiply(w.chain, neg));
                assert(scratch_creation(nodes2, neg, nodes2[w.chain.0 as int].size as int)
                    && scratch_keyed(nodes2, w.expr, LazyOp::Multiply(w.chain, neg)));
            }
        },
        LazyOp::Divide(a, _) => {
            if w.second_operand {
                let wit = choose|
                    wit: (LazyBufferHandle, LazyBufferHandle, LazyBufferHandle, LazyBufferHandle),
                |
                    #![auto]
                    {
                        &&& scratch_keyed(nodes1, wit.0, LazyOp::Multiply(a, w.chain))
                        &&& scratch_creation(nodes1, wit.1, nodes1[w.chain.0 as int].size as int)
                        &&& scratch_keyed(nodes1, wit.2, LazyOp::Multiply(wit.0, wit.1))
                        &&& scratch_keyed(
                            nodes1,
                            wit.3,
                            LazyOp::Multiply(op_operands(pop).1, op_operands(pop).1),
                        )
                        &&& scratch_keyed(nodes1, w.expr, LazyOp::Divide(wit.2, wit.3))
                    };
                assert({
                    &&& scratch_keyed(nodes2, wit.0, LazyOp::Multiply(a, w.chain))
                    &&& scratch_creation(nodes2, wit.1, nodes2[w.chain.0 as int].size as int)
                    &&& scratch_keyed(nodes2, wit.2, LazyOp::Multiply(wit.0, wit.1))
                    &&& scratch_keyed(
                        nodes2,
                        wit.3,
                        LazyOp::Multiply(op_operands(pop).1, op_operands(pop).1),
                    )
                    &&& scratch_keyed(nodes2, w.expr, LazyOp::Divide(wit.2, wit.3))
                });
            }
        },
        _ => {},
    }
}

/// The trace-facing loop state of the gradient walk: every recorded write is
/// rule-faithful, every targeted tensor's accumulator holds its last write
/// and is awaiting realization, and queue chains are scratch nodes.
pub open spec fn trace_state_ok(e: Engine, tr: Seq<GradientWrite>) -> bool {
    &&& (forall|k: int| 0 <= k < tr.len() ==> write_ok(e.nodes@, e.tensors@, #[trigger] tr[k]))
    &&& (forall|t: int|
        #[trigger] trace_targets(tr, t) ==> {
            &&& 0 <= t < e.tensors@.len()
            &&& e.tensors@[t].gradient is Some
            &&& trace_determines_acc(e.nodes@, tr, t)
            &&& e.nodes@[e.tensors@[t].gradient.unwrap().0 as int].device_buffer is None
        })
}

/// One push (or none) per operand: write the incoming partial into the
/// operand owner's accumulator, enqueue the owner, and record the write.
fn backward_step(
    engine: &mut Engine,
    queue: &mut Vec<GradientTask>,
    e_b: Ghost<Engine>,
    bound: Ghost<int>,
    trace: Ghost<Seq<GradientWrite>>,
    parent: Ghost<usize>,
    chaing: Ghost<LazyBufferHandle>,
    second: Ghost<bool>,
    operand: LazyBufferHandle,
    expr: LazyBufferHandle,
) -> (tr2: Ghost<Seq<GradientWrite>>)
    requires
        old(engine).wf(),
        operand.0 < e_b@.nodes@.len(),
        (e_b@.nodes@[operand.0 as int].kind matches LazybufferType::TensorData(o) && o.0
            < bound@),
        expr.0 < old(engine).nodes@.len(),
        engine_tracks(e_b@, *old(engine)),
        forall|k: int| 0 <= k < old(queue)@.len() ==> task_ok(*old(engine), #[trigger] old(queue)@[k]),
        parent@ < old(engine).tensors@.len(),
        old(engine).tensors@[parent@ as int].buffer.0 < old(engine).nodes@.len(),
        is_binary_op(old(engine).nodes@[old(engine).tensors@[parent@ as int].buffer.0 as int].operation),
        operand == (if second@ {
            op_operands(old(engine).nodes@[old(engine).tensors@[parent@ as int].buffer.0 as int].operation).1
        } else {
            op_operands(old(engine).nodes@[old(engine).tensors@[parent@ as int].buffer.0 as int].operation).0
        }),
        chaing@.0 < old(engine).nodes@.len(),
        old(engine).nodes@[chaing@.0 as int].kind is Scratch,
        old(engine).nodes@[expr.0 as int].kind is Scratch,
        rule_expression(
            old(engine).nodes@,
            old(engine).nodes@[old(engine).tensors@[parent@ as int].buffer.0 as int].operation,
            second@,
            chaing@,
            expr,
        ),
        trace_state_ok(*old(engine), trace@),
    ensures
        final (engine).wf(),
        engine_tracks(e_b@, *final (engine)),
        final (engine).nodes@.len() == old(engine).nodes@.len(),
        final (engine).tensors@ == old(engine).tensors@,
        forall|k: int| 0 <= k < final (queue)@.len() ==> task_ok(*final (engine), #[trigger] final (queue)@[k]),
        final (queue)@.len() >= old(queue)@.len(),
        forall|k: int| 0 <= k < old(queue)@.len() ==> final (queue)@[k] == old(queue)@[k],
        final (queue)@.len() <= old(queue)@.len() + 1,
        forall|k: int|
            old(queue)@.len() <= k < final (queue)@.len() ==> (#[trigger] final (queue)@[k]).tensor.0 < bound@,
        trace_state_ok(*final (engine), tr2@),
        tr2@.len() >= trace@.len(),
        tr2@.len() <= trace@.len() + 1,
        forall|k: int| 0 <= k < trace@.len() ==> tr2@[k] == trace@[k],
        final (queue)@.len() - old(queue)@.len() == tr2@.len() - trace@.len(),
        forall|j: int|
            0 <= j < old(engine).nodes@.len() && (#[trigger] old(engine).nodes@[j].kind) is Scratch
                ==> final (engine).nodes@[j] == old(engine).nodes@[j],
        tr2@.len() > trace@.len() ==> {
            let w = tr2@.last();
            &&& w.parent == parent@
            &&& w.chain == chaing@
            &&& w.second_operand == second@
            &&& final (queue)@.last() == (GradientTask {
                tensor: TensorId(w.target),
                chain: w.expr,
            })
            &&& w.expr == expr
        },
{
    proof {
        assert(engine.nodes@[operand.0 as int].kind == e_b@.nodes@[operand.0 as int].kind);
    }
    let pushed = emit_into(engine, operand, expr);
    proof {
        lemma_tracks_trans_same_tensors(e_b@, *old(engine), *engine);
        assert forall|k: int|
            0 <= k < queue@.len() implies task_ok(*engine, #[trigger] queue@[k]) by {
            assert(task_ok(*old(engine), queue@[k]));
        }
    }
    match pushed {
        Some(o) => {
            queue.push(GradientTask { tensor: o, chain: expr });
            let ghost accv = old(engine).tensors@[o.0 as int].gradient.unwrap();
            let ghost w = GradientWrite {
                parent: parent@,
                chain: chaing@,
                second_operand: second@,
                target: o.0,
                acc: accv,
                expr: expr,
            };
            let tr2: Ghost<Seq<GradientWrite>> = Ghost(trace@.push(w));
            proof {
                assert(o == owner_of(old(engine).nodes@, operand));
                assert(tensor_wf(engine.nodes@, engine.tensors@, o.0 as int));
                assert(engine.tensors@[o.0 as int].buffer
                    == old(engine).tensors@[o.0 as int].buffer);
                assert(engine.nodes@[engine.tensors@[o.0 as int].buffer.0 as int].size == old(engine).nodes@[old(engine).tensors@[o.0 as int].buffer.0 as int].size);
                assert(engine.nodes@[expr.0 as int].size == old(engine).nodes@[expr.0 as int].size);
                assert(task_ok(*engine, queue@.last()));
                assert(accv.0 != engine.tensors@[o.0 as int].buffer.0) by {
                    assert(tensor_wf(old(engine).nodes@, old(engine).tensors@, o.0 as int));
                }
                assert(write_ok(old(engine).nodes@, old(engine).tensors@, w)) by {
                    assert(tensor_wf(old(engine).nodes@, old(engine).tensors@, o.0 as int));
                }
                assert forall|j: int|
                    0 <= j < old(engine).nodes@.len() && (#[trigger] old(
                        engine,
                    ).nodes@[j].kind) is Scratch implies engine.nodes@[j] == old(
                    engine,
                ).nodes@[j] by {
                    assert(old(engine).nodes@[accv.0 as int].kind is TensorData);
                }
                assert forall|k: int|
                    0 <= k < tr2@.len() implies write_ok(engine.nodes@, engine.tensors@, #[trigger] tr2@[k]) by {
                    if k < trace@.len() {
                        assert(write_ok(old(engine).nodes@, old(engine).tensors@, trace@[k]));
                        lemma_write_ok_stable(
                            old(engine).nodes@,
                            engine.nodes@,
                            engine.tensors@,
                            trace@[k],
                        );
                    } else {
                        lemma_write_ok_stable(old(engine).nodes@, engine.nodes@, engine.tensors@, w);
                    }
                }
                assert forall|t: int| #[trigger] trace_targets(tr2@, t) implies {
                    &&& 0 <= t < engine.tensors@.len()
                    &&& engine.tensors@[t].gradient is Some
                    &&& trace_determines_acc(engine.nodes@, tr2@, t)
                    &&& engine.nodes@[engine.tensors@[t].gradient.unwrap().0 as int].device_buffer is None
                } by {
                    if t == o.0 as int {
                        let last = tr2@.len() - 1;
                        assert(tr2@[last].target == t);
                        assert(engine.nodes@[accv.0 as int].operation == LazyOp::Memset(
                            accv,
                            expr,
                        ));
                        assert(trace_determines_acc(engine.nodes@, tr2@, t));
                    } else {
                        assert(trace_targets(trace@, t)) by {
                            let k = choose|k: int|
                                0 <= k < tr2@.len() && (#[trigger] tr2@[k]).target == t;
                            assert(trace@[k].target == t);
                        }
                        let acct = engine.tensors@[t].gradient.unwrap();
                        assert(acct.0 != accv.0) by {
                            lemma_sgd_buffers_distinct(*old(engine), o.0 as int, t);
                        }
                        assert(engine.nodes@[acct.0 as int] == old(engine).nodes@[acct.0 as int]);
                        let k = choose|k: int|
                            #![auto]
                            0 <= k < trace@.len() && trace@[k].target == t && old(
                                engine,
                            ).nodes@[trace@[k].acc.0 as int].operation == LazyOp::Memset(
                                trace@[k].acc,
                                trace@[k].expr,
                            ) && (forall|k2: int|
                                k < k2 < trace@.len() ==> (#[trigger] trace@[k2]).target != t);
                        assert(trace@[k].acc == acct) by {
                            assert(write_ok(old(engine).nodes@, old(engine).tensors@, trace@[k]));
                        }
                        assert(tr2@[k].target == t && engine.nodes@[tr2@[k].acc.0 as int].operation
                            == LazyOp::Memset(tr2@[k].acc, tr2@[k].expr) && (forall|k2: int|
                            k < k2 < tr2@.len() ==> (#[trigger] tr2@[k2]).target != t));
                        assert(trace_determines_acc(engine.nodes@, tr2@, t));
                    }
                }
            }
            tr2
        },
        None => {
            proof {
                assert forall|t: int| #[trigger] trace_targets(trace@, t) implies {
                    &&& 0 <= t < engine.tensors@.len()
                    &&& engine.tensors@[t].gradient is Some
                    &&& trace_determines_acc(engine.nodes@, trace@, t)
                    &&& engine.nodes@[engine.tensors@[t].gradient.unwrap().0 as int].device_buffer is None
                } by {}
            }
            trace
        },
    }
}

/// The BFS frame between the walk's start state/// The BFS frame between the walk's start state and a later state: same
/// tensor table, a grown registry whose old entries keep size and kind, lose
/// realization marks at most, and whose value buffers are untouched; new
/// entries are unrealized.
pub open spec fn engine_tracks(e_b: Engine, e: Engine) -> bool {
    &&& e.tensors@ == e_b.tensors@
    &&& (forall|tt: int|
        0 <= tt < e_b.tensors@.len() ==> (#[trigger] e_b.tensors@[tt]).buffer.0
            < e_b.nodes@.len())
    &&& e.nodes@.len() >= e_b.nodes@.len()
    &&& (forall|j: int|
        0 <= j < e_b.nodes@.len() ==> (#[trigger] e.nodes@[j]).size == e_b.nodes@[j].size
            && e.nodes@[j].kind == e_b.nodes@[j].kind)
    &&& (forall|j: int|
        0 <= j < e_b.nodes@.len() ==> e.nodes@[j] == e_b.nodes@[j] || (
        #[trigger] e.nodes@[j]).device_buffer is None)
    &&& (forall|j: int|
        e_b.nodes@.len() <= j < e.nodes@.len() ==> (#[trigger] e.nodes@[j]).device_buffer is None)
    &&& (forall|tt: int|
        0 <= tt < e_b.tensors@.len() ==> e.nodes@[(#[trigger] e_b.tensors@[tt]).buffer.0 as int]
            == e_b.nodes@[e_b.tensors@[tt].buffer.0 as int])
}

/// `engine_tracks` composes along a pure registry append.
proof fn lemma_tracks_grow(e_b: Engine, e1: Engine, e2: Engine)
    requires
        engine_tracks(e_b, e1),
        e2.tensors@ == e1.tensors@,
        e2.nodes@.len() >= e1.nodes@.len(),
        forall|j: int| 0 <= j < e1.nodes@.len() ==> e2.nodes@[j] == e1.nodes@[j],
        forall|j: int|
            e1.nodes@.len() <= j < e2.nodes@.len() ==> (
            #[trigger] e2.nodes@[j]).device_buffer is None,
    ensures
        engine_tracks(e_b, e2),
{
    assert forall|tt: int|
        0 <= tt < e_b.tensors@.len() implies e2.nodes@[(
        #[trigger] e_b.tensors@[tt]).buffer.0 as int] == e_b.nodes@[e_b.tensors@[tt].buffer.0 as int] by {
        assert(e1.nodes@[e_b.tensors@[tt].buffer.0 as int]
            == e_b.nodes@[e_b.tensors@[tt].buffer.0 as int]);
    }
}

/// Queue entries stay usable when the registry only grows.
proof fn lemma_tasks_ok_grow(e1: Engine, e2: Engine, q: Seq<GradientTask>)
    requires
        forall|k: int| 0 <= k < q.len() ==> task_ok(e1, #[trigger] q[k]),
        e2.tensors@ == e1.tensors@,
        e2.nodes@.len() >= e1.nodes@.len(),
        forall|j: int| 0 <= j < e1.nodes@.len() ==> e2.nodes@[j] == e1.nodes@[j],
    ensures
        forall|k: int| 0 <= k < q.len() ==> task_ok(e2, #[trigger] q[k]),
{
    assert forall|k: int| 0 <= k < q.len() implies task_ok(e2, #[trigger] q[k]) by {
        assert(task_ok(e1, q[k]));
    }
}

/// `engine_tracks` composes along one emission step.
proof fn lemma_tracks_trans_same_tensors(e_b: Engine, e1: Engine, e2: Engine)
    requires
        engine_tracks(e_b, e1),
        e2.tensors@ == e1.tensors@,
        e2.nodes@.len() == e1.nodes@.len(),
        forall|j: int|
            0 <= j < e1.nodes@.len() ==> (#[trigger] e2.nodes@[j]).size == e1.nodes@[j].size
                && e2.nodes@[j].kind == e1.nodes@[j].kind,
        forall|j: int|
            0 <= j < e1.nodes@.len() ==> e2.nodes@[j] == e1.nodes@[j] || (
            #[trigger] e2.nodes@[j]).device_buffer is None,
        forall|tt: int|
            0 <= tt < e1.tensors@.len() ==> e2.nodes@[(#[trigger] e1.tensors@[tt]).buffer.0 as int]
                == e1.nodes@[e1.tensors@[tt].buffer.0 as int],
    ensures
        engine_tracks(e_b, e2),
{
    assert forall|tt: int|
        0 <= tt < e_b.tensors@.len() implies e2.nodes@[(
        #[trigger] e_b.tensors@[tt]).buffer.0 as int] == e_b.nodes@[e_b.tensors@[tt].buffer.0 as int] by {
        assert(e1.tensors@[tt] == e_b.tensors@[tt]);
    }
}

/// Processing one queue entry strictly lowers the measure: the entry's weight
/// leaves, and what was enqueued weighs less.
proof fn lemma_queue_measure_drop(
    q0: Seq<GradientTask>,
    q1: Seq<GradientTask>,
    h0: int,
    task: GradientTask,
)
    requires
        0 <= h0 < q0.len(),
        q0[h0] == task,
        q1.len() >= q0.len(),
        q1.len() <= q0.len() + 2,
        forall|k: int| 0 <= k < q0.len() ==> q1[k] == q0[k],
        forall|k: int|
            q0.len() <= k < q1.len() ==> (#[trigger] q1[k]).tensor.0 < task.tensor.0,
    ensures
        queue_measure(q1, h0 + 1) < queue_measure(q0, h0),
{
    lemma_queue_measure_prefix(q0, q1, h0 + 1);
    if q1.len() == q0.len() {
        assert(q1 =~= q0);
        lemma_pow3_pos(task.tensor.0 as nat);
    } else if q1.len() == q0.len() + 1 {
        assert(q1 =~= q0 + seq![q1[q0.len() as int]]);
        lemma_queue_measure_append1(q0, q1[q0.len() as int], h0 + 1);
        lemma_pow3_le(q1[q0.len() as int].tensor.0 as nat, (task.tensor.0 - 1) as nat);
        lemma_pow3_pos((task.tensor.0 - 1) as nat);
    } else {
        let x1 = q1[q0.len() as int];
        let x2 = q1[q0.len() as int + 1];
        assert(q1 =~= q0.push(x1).push(x2));
        lemma_queue_measure_push(q0.push(x1), h0 + 1, x2);
        lemma_queue_measure_push(q0, h0 + 1, x1);
        lemma_pow3_two_below(x1.tensor.0 as nat, x2.tensor.0 as nat, task.tensor.0 as nat);
    }
}

/// The suffix measure only reads entries from the head onward.
proof fn lemma_queue_measure_prefix(q0: Seq<GradientTask>, q1: Seq<GradientTask>, h: int)
    requires
        0 <= h,
        q1.len() >= q0.len(),
        forall|k: int| 0 <= k < q0.len() ==> q1[k] == q0[k],
    ensures
        queue_measure(q0, h) <= queue_measure(q1, h),
    decreases q0.len() - h,
{
    if h < q0.len() {
        lemma_queue_measure_prefix(q0, q1, h + 1);
    }
}

proof fn lemma_queue_measure_append1(q0: Seq<GradientTask>, x: GradientTask, h: int)
    requires
        0 <= h <= q0.len(),
    ensures
        queue_measure(q0 + seq![x], h) == queue_measure(q0, h) + pow3(x.tensor.0 as nat),
{
    assert(q0 + seq![x] =~= q0.push(x));
    lemma_queue_measure_push(q0, h, x);
}

/// One realization in the finalization pass: gradients already realized stay
/// realized, realized buffers keep their words, and registry slots move only
/// to their committed form.
proof fn lemma_finalize_step(
    e_f: Engine,
    e_c: Engine,
    e_n: Engine,
    m_b: Map<int, Seq<u32>>,
    m_c: Map<int, Seq<u32>>,
    m_n: Map<int, Seq<u32>>,
    g: int,
)
    requires
        e_c.wf(),
        0 <= g < e_c.nodes@.len(),
        e_f.nodes@.len() == e_c.nodes@.len(),
        e_n.nodes@.len() == e_c.nodes@.len(),
        e_n.tensors@ == e_c.tensors@,
        forall|j: int|
            0 <= j < e_f.nodes@.len() ==> #[trigger] e_c.nodes@[j] == e_f.nodes@[j]
                || e_c.nodes@[j] == crate::schedule::committed_node(e_f.nodes@[j], j),
        forall|n: int|
            0 <= n < e_c.nodes@.len() ==> e_n.nodes@[n] == (if crate::schedule::reaches(
                e_c.nodes@,
                g,
                n,
            ) {
                crate::schedule::committed_node(e_c.nodes@[n], n)
            } else {
                e_c.nodes@[n]
            }),
        forall|id: int|
            !(0 <= id < e_c.nodes@.len() && crate::schedule::reaches(e_c.nodes@, g, id)
                && e_c.nodes@[id].device_buffer is None) ==> ((#[trigger] m_n.dom().contains(id)
                <==> m_c.dom().contains(id)) && (m_c.dom().contains(id) ==> m_n[id] == m_c[id])),
        forall|n: int|
            0 <= n < e_c.nodes@.len() && #[trigger] crate::schedule::reaches(e_c.nodes@, g, n)
                ==> m_n.dom().contains(n),
        forall|id: int| #[trigger] m_b.dom().contains(id) ==> m_c.dom().contains(id),
        forall|id: int|
            0 <= id < e_f.nodes@.len() && (#[trigger] e_f.nodes@[id]).device_buffer is Some
                ==> m_c.dom().contains(id) && m_b.dom().contains(id) && m_c[id] == m_b[id]
                && e_c.nodes@[id] == e_f.nodes@[id],
    ensures
        forall|j: int|
            0 <= j < e_f.nodes@.len() ==> #[trigger] e_n.nodes@[j] == e_f.nodes@[j]
                || e_n.nodes@[j] == crate::schedule::committed_node(e_f.nodes@[j], j),
        forall|id: int| #[trigger] m_b.dom().contains(id) ==> m_n.dom().contains(id),
        forall|id: int|
            0 <= id < e_f.nodes@.len() && (#[trigger] e_f.nodes@[id]).device_buffer is Some
                ==> m_n.dom().contains(id) && m_b.dom().contains(id) && m_n[id] == m_b[id]
                && e_n.nodes@[id] == e_f.nodes@[id],
{
    assert forall|j: int|
        0 <= j < e_f.nodes@.len() implies #[trigger] e_n.nodes@[j] == e_f.nodes@[j]
        || e_n.nodes@[j] == crate::schedule::committed_node(e_f.nodes@[j], j) by {
        if crate::schedule::reaches(e_c.nodes@, g, j) {
            if e_c.nodes@[j] == e_f.nodes@[j] {
            } else {
                assert(e_c.nodes@[j] == crate::schedule::committed_node(e_f.nodes@[j], j));
                assert(node_wf(e_c.nodes@, e_c.tensors@.len(), j));
                crate::schedule::lemma_committed_identity(e_c.nodes@, e_c.tensors@.len(), j);
            }
        }
    }
    assert forall|id: int| #[trigger] m_b.dom().contains(id) implies m_n.dom().contains(id) by {
        assert(m_c.dom().contains(id));
        if 0 <= id < e_c.nodes@.len() && crate::schedule::reaches(e_c.nodes@, g, id)
            && e_c.nodes@[id].device_buffer is None {
            assert(m_n.dom().contains(id));
        }
    }
    assert forall|id: int|
        0 <= id < e_f.nodes@.len() && (#[trigger] e_f.nodes@[id]).device_buffer is Some
        implies m_n.dom().contains(id) && m_b.dom().contains(id) && m_n[id] == m_b[id]
        && e_n.nodes@[id] == e_f.nodes@[id] by {
        assert(e_c.nodes@[id].device_buffer is Some);
        if crate::schedule::reaches(e_c.nodes@, g, id) {
            assert(node_wf(e_c.nodes@, e_c.tensors@.len(), id));
            crate::schedule::lemma_committed_identity(e_c.nodes@, e_c.tensors@.len(), id);
        }
    }
}

/// The engine invariant survives assigning a fresh, well-shaped accumulator
/// to one tensor: a registered node owned by that tensor, of its value
/// buffer's size, distinct from the value buffer and not an operation node.
proof fn lemma_wf_set_gradient(e1: Engine, e2: Engine, t: int, g: LazyBufferHandle)
    requires
        e1.wf(),
        0 <= t < e1.tensors@.len(),
        e2.nodes@ == e1.nodes@,
        e2.tensors@.len() == e1.tensors@.len(),
        forall|j: int| 0 <= j < e1.tensors@.len() && j != t ==> e2.tensors@[j] == e1.tensors@[j],
        e2.tensors@[t] == (Tensor { gradient: Some(g), ..e1.tensors@[t] }),
        g.0 < e1.nodes@.len(),
        (e1.nodes@[g.0 as int].kind matches LazybufferType::TensorData(o) && o.0 == t),
        e1.nodes@[g.0 as int].size == e1.nodes@[e1.tensors@[t].buffer.0 as int].size,
        g != e1.tensors@[t].buffer,
        !is_binary_op(e1.nodes@[g.0 as int].operation),
        e2.scratch_data_cache@ == e1.scratch_data_cache@,
        e2.scratch_op_cache@ == e1.scratch_op_cache@,
        e2.tensor_children@ == e1.tensor_children@,
        e2.tensor_op_cache@ == e1.tensor_op_cache@,
    ensures
        e2.wf(),
{
    assert forall|i: int|
        0 <= i < e2.nodes@.len() implies #[trigger] node_wf(e2.nodes@, e2.tensors@.len(), i) by {
        assert(node_wf(e1.nodes@, e1.tensors@.len(), i));
    }
    assert forall|tt: int|
        0 <= tt < e2.tensors@.len() implies #[trigger] tensor_wf(e2.nodes@, e2.tensors@, tt) by {
        assert(tensor_wf(e1.nodes@, e1.tensors@, tt));
    }
    assert forall|j: int|
        0 <= j < e2.tensor_op_cache@.len() implies #[trigger] tensor_op_entry_wf(
        e2.nodes@,
        e2.tensors@,
        e2.tensor_op_cache@[j],
    ) by {
        assert(tensor_op_entry_wf(e1.nodes@, e1.tensors@, e1.tensor_op_cache@[j]));
        assert(e2.tensors@[e1.tensor_op_cache@[j].tensor.0 as int].buffer
            == e1.tensors@[e1.tensor_op_cache@[j].tensor.0 as int].buffer);
    }
    assert forall|j: int|
        0 <= j < e2.scratch_data_cache@.len() implies #[trigger] scratch_data_entry_wf(
        e2.nodes@,
        e2.scratch_data_cache@[j],
    ) by {
        assert(scratch_data_entry_wf(e1.nodes@, e1.scratch_data_cache@[j]));
    }
    assert forall|j: int|
        0 <= j < e2.scratch_op_cache@.len() implies #[trigger] scratch_op_entry_wf(
        e2.nodes@,
        e2.scratch_op_cache@[j],
    ) by {
        assert(scratch_op_entry_wf(e1.nodes@, e1.scratch_op_cache@[j]));
    }
    assert forall|j: int|
        0 <= j < e2.tensor_children@.len() implies #[trigger] child_entry_wf(
        e2.nodes@,
        e2.tensor_children@[j],
    ) by {
        assert(child_entry_wf(e1.nodes@, e1.tensor_children@[j]));
    }
}

/// The 32-bit word whose IEEE-754 single-precision interpretation is one;
/// the seed of the chain rule.
pub const WORD_ONE: u32 = 0x3F80_0000;

/// The 32-bit word whose IEEE-754 single-precision interpretation is minus
/// one; the factor the subtraction and division rules apply.
pub const WORD_NEG_ONE: u32 = 0xBF80_0000;

/// A pending step of the gradient walk: a tensor and the lazy buffer holding
/// the partial derivative flowing into it.
#[derive(Copy, Clone)]
pub struct GradientTask {
    pub tensor: TensorId,
    pub chain: LazyBufferHandle,
}

/// A queue entry is usable: the tensor is registered and the incoming partial
/// matches its value buffer's element count.
spec fn task_ok(e: Engine, task: GradientTask) -> bool {
    &&& task.tensor.0 < e.tensors@.len()
    &&& task.chain.0 < e.nodes@.len()
    &&& e.nodes@[task.chain.0 as int].kind is Scratch
    &&& e.tensors@[task.tensor.0 as int].buffer.0 < e.nodes@.len()
    &&& e.nodes@[task.chain.0 as int].size
        == e.nodes@[e.tensors@[task.tensor.0 as int].buffer.0 as int].size
}

/// Powers of three: the weight of a queue entry in the walk's termination
/// measure.
spec fn pow3(n: nat) -> nat
    decreases n,
{
    if n == 0 {
        1
    } else {
        3 * pow3((n - 1) as nat)
    }
}

proof fn lemma_pow3_pos(n: nat)
    ensures
        pow3(n) >= 1,
    decreases n,
{
    if n > 0 {
        lemma_pow3_pos((n - 1) as nat);
    }
}

/// Two entries below a bound weigh strictly less than the bound itself: each
/// processed tensor outweighs everything it enqueues.
proof fn lemma_pow3_two_below(x: nat, y: nat, c: nat)
    requires
        x < c,
        y < c,
    ensures
        pow3(x) + pow3(y) < pow3(c),
{
    lemma_pow3_le(x, (c - 1) as nat);
    lemma_pow3_le(y, (c - 1) as nat);
    lemma_pow3_pos((c - 1) as nat);
}

proof fn lemma_pow3_le(a: nat, b: nat)
    requires
        a <= b,
    ensures
        pow3(a) <= pow3(b),
    decreases b,
{
    if a < b {
        lemma_pow3_le(a, (b - 1) as nat);
    }
}

/// The unprocessed suffix's weight.
spec fn queue_measure(q: Seq<GradientTask>, head: int) -> nat
    decreases q.len() - head,
{
    if head < 0 || head >= q.len() {
        0
    } else {
        pow3(q[head].tensor.0 as nat) + queue_measure(q, head + 1)
    }
}

/// Appending an entry adds its weight.
proof fn lemma_queue_measure_push(q: Seq<GradientTask>, head: int, x: GradientTask)
    requires
        0 <= head <= q.len(),
    ensures
        queue_measure(q.push(x), head) == queue_measure(q, head) + pow3(x.tensor.0 as nat),
    decreases q.len() - head,
{
    if head < q.len() {
        lemma_queue_measure_push(q, head + 1, x);
        assert(q.push(x)[head] == q[head]);
    } else {
        assert(q.push(x)[head] == x);
        assert(queue_measure(q.push(x), head + 1) == 0);
    }
}

/// Write one incoming partial into an operand's gradient accumulator: a
/// memset of the owner's accumulator slot, which keeps the accumulator's
/// identity.  Returns the owner when a gradient was written — the owner
/// requires gradients, has an accumulator, and the partial matches its size —
/// and `None` otherwise, leaving everything unchanged.
fn emit_into(engine: &mut Engine, operand: LazyBufferHandle, expr: LazyBufferHandle) -> (pushed:
    Option<TensorId>)
    requires
        old(engine).wf(),
        operand.0 < old(engine).nodes@.len(),
        old(engine).nodes@[operand.0 as int].kind is TensorData,
        expr.0 < old(engine).nodes@.len(),
    ensures
        final (engine).wf(),
        final (engine).tensors@ == old(engine).tensors@,
        final (engine).nodes@.len() == old(engine).nodes@.len(),
        forall|j: int|
            0 <= j < old(engine).nodes@.len() ==> (#[trigger] final (engine).nodes@[j]).size
                == old(engine).nodes@[j].size && final (engine).nodes@[j].kind == old(engine).nodes@[j].kind,
        forall|j: int|
            0 <= j < old(engine).nodes@.len() ==> final (engine).nodes@[j] == old(engine).nodes@[j] || (#[trigger] final (engine).nodes@[j]).device_buffer is None,
        forall|tt: int|
            0 <= tt < old(engine).tensors@.len() ==> final (engine).nodes@[(#[trigger] old(engine).tensors@[tt]).buffer.0 as int] == old(engine).nodes@[old(engine).tensors@[tt].buffer.0 as int],
        final (engine).caches_unchanged(*old(engine)),
        final (engine).scratch_data_cache@ == old(engine).scratch_data_cache@,
        match pushed {
            Some(o) => {
                &&& o == owner_of(old(engine).nodes@, operand)
                &&& o.0 < old(engine).tensors@.len()
                &&& old(engine).tensors@[o.0 as int].requires_grad
                &&& old(engine).nodes@[expr.0 as int].size == old(engine).nodes@[old(engine).tensors@[o.0 as int].buffer.0 as int].size
                &&& old(engine).tensors@[o.0 as int].gradient is Some
                &&& {
                    let acc = old(engine).tensors@[o.0 as int].gradient.unwrap();
                    &&& acc.0 < old(engine).nodes@.len()
                    &&& final (engine).nodes@[acc.0 as int].operation == LazyOp::Memset(acc, expr)
                    &&& final (engine).nodes@[acc.0 as int].device_buffer is None
                    &&& (forall|j: int|
                        0 <= j < old(engine).nodes@.len() && j != acc.0 ==> final (engine).nodes@[j] == old(engine).nodes@[j])
                    &&& old(engine).nodes@[acc.0 as int].kind is TensorData
                }
            },
            None => final (engine).nodes@ == old(engine).nodes@,
        },
{
    proof {
        assert(node_wf(engine.nodes@, engine.tensors@.len(), operand.0 as int));
    }
    let owner = match engine.nodes[operand.0].kind {
        LazybufferType::TensorData(o) => o,
        LazybufferType::Scratch => {
            proof {
                assert(false);
            }
            TensorId(0)
        },
    };
    if !engine.tensors[owner.0].requires_grad {
        return None;
    }
    let acc = match engine.tensors[owner.0].gradient {
        Some(acc) => acc,
        None => {
            return None;
        },
    };
    proof {
        assert(tensor_wf(engine.nodes@, engine.tensors@, owner.0 as int));
    }
    if engine.nodes[acc.0].size != engine.nodes[expr.0].size {
        return None;
    }
    LazyBuffer::from_tensor_op(engine, owner, LazyOp::Memset(acc, expr));
    proof {
        assert forall|tt: int|
            0 <= tt < old(engine).tensors@.len() implies engine.nodes@[(#[trigger] old(engine).tensors@[tt]).buffer.0 as int] == old(engine).nodes@[old(engine).tensors@[tt].buffer.0 as int] by {
            assert(tensor_wf(old(engine).nodes@, old(engine).tensors@, tt));
            if old(engine).tensors@[tt].buffer == acc {
                assert(tt == owner.0 as int);
            }
        }
    }
    Some(owner)
}

/// The effect of registering a fresh data tensor: one creation node holding
/// the data and one table entry, everything else untouched.
pub open spec fn tensor_created(e1: Engine, e2: Engine, t: Tensor, data: Vec<u32>) -> bool {
    &&& e2.nodes@.len() == e1.nodes@.len() + 1
    &&& (forall|j: int| 0 <= j < e1.nodes@.len() ==> e2.nodes@[j] == e1.nodes@[j])
    &&& e2.nodes@[t.buffer.0 as int] == (LazyBuffer {
        id: t.buffer,
        kind: LazybufferType::TensorData(t.id),
        size: data@.len() as usize,
        operation: LazyOp::Creation(CreationType::RawData(data)),
        device_buffer: None::<crate::handle::BufferHandle>,
    })
    &&& e2.tensors@.len() == e1.tensors@.len() + 1
    &&& (forall|j: int| 0 <= j < e1.tensors@.len() ==> e2.tensors@[j] == e1.tensors@[j])
    &&& e2.tensors@[t.id.0 as int] == t
    &&& e2.caches_unchanged(e1)
}

/// The engine invariant survives registering a fresh data tensor.
proof fn lemma_wf_new_tensor(e1: Engine, e2: Engine)
    requires
        e1.wf(),
        e2.nodes@.len() == e1.nodes@.len() + 1,
        forall|j: int| 0 <= j < e1.nodes@.len() ==> e2.nodes@[j] == e1.nodes@[j],
        e2.tensors@.len() == e1.tensors@.len() + 1,
        forall|j: int| 0 <= j < e1.tensors@.len() ==> e2.tensors@[j] == e1.tensors@[j],
        e2.nodes@.last().id.0 == e1.nodes@.len(),
        (e2.nodes@.last().kind matches LazybufferType::TensorData(o) && o.0 == e1.tensors@.len()),
        e2.nodes@.last().device_buffer is None,
        e2.nodes@.last().operation matches LazyOp::Creation(CreationType::RawData(d)) && d@.len()
            == e2.nodes@.last().size,
        e2.tensors@.last().id.0 == e1.tensors@.len(),
        e2.tensors@.last().buffer.0 == e1.nodes@.len(),
        e2.tensors@.last().gradient is None,
        e2.scratch_data_cache@ == e1.scratch_data_cache@,
        e2.scratch_op_cache@ == e1.scratch_op_cache@,
        e2.tensor_children@ == e1.tensor_children@,
        e2.tensor_op_cache@ == e1.tensor_op_cache@,
    ensures
        e2.wf(),
{
    let len1 = e1.nodes@.len() as int;
    let tc1 = e1.tensors@.len() as int;
    assert forall|i: int|
        0 <= i < e2.nodes@.len() implies #[trigger] node_wf(e2.nodes@, e2.tensors@.len(), i) by {
        if i < len1 {
            assert(node_wf(e1.nodes@, e1.tensors@.len(), i));
            crate::engine::lemma_node_wf_extend(
                e1.nodes@,
                e2.nodes@,
                e1.tensors@.len(),
                e2.tensors@.len(),
                i,
            );
        }
    }
    assert forall|t: int|
        0 <= t < e2.tensors@.len() implies #[trigger] tensor_wf(e2.nodes@, e2.tensors@, t) by {
        if t < tc1 {
            assert(tensor_wf(e1.nodes@, e1.tensors@, t));
        }
    }
    assert forall|j: int|
        0 <= j < e2.scratch_data_cache@.len() implies #[trigger] scratch_data_entry_wf(
        e2.nodes@,
        e2.scratch_data_cache@[j],
    ) by {
        assert(scratch_data_entry_wf(e1.nodes@, e1.scratch_data_cache@[j]));
    }
    assert forall|j: int|
        0 <= j < e2.scratch_op_cache@.len() implies #[trigger] scratch_op_entry_wf(
        e2.nodes@,
        e2.scratch_op_cache@[j],
    ) by {
        assert(scratch_op_entry_wf(e1.nodes@, e1.scratch_op_cache@[j]));
    }
    assert forall|j: int|
        0 <= j < e2.tensor_children@.len() implies #[trigger] child_entry_wf(
        e2.nodes@,
        e2.tensor_children@[j],
    ) by {
        assert(child_entry_wf(e1.nodes@, e1.tensor_children@[j]));
    }
    assert forall|j: int, k: int|
        0 <= j < k < e2.tensor_children@.len() && #[trigger] e2.tensor_children@[j].owner
            == #[trigger] e2.tensor_children@[k].owner implies !crate::node::same_binary_op(
        e2.nodes@[e2.tensor_children@[j].handle.0 as int].operation,
        e2.nodes@[e2.tensor_children@[k].handle.0 as int].operation,
    ) by {
        assert(child_entry_wf(e1.nodes@, e1.tensor_children@[j]));
        assert(child_entry_wf(e1.nodes@, e1.tensor_children@[k]));
    }
    assert forall|j: int|
        0 <= j < e2.tensor_op_cache@.len() implies #[trigger] tensor_op_entry_wf(
        e2.nodes@,
        e2.tensors@,
        e2.tensor_op_cache@[j],
    ) by {
        assert(tensor_op_entry_wf(e1.nodes@, e1.tensors@, e1.tensor_op_cache@[j]));
        assert(e2.tensors@[e1.tensor_op_cache@[j].tensor.0 as int]
            == e1.tensors@[e1.tensor_op_cache@[j].tensor.0 as int]);
    }
}

} // verus!
