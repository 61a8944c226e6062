//! Registration of lazy-buffer nodes — the four constructors — and the
//! read-side operations on a registered handle.

use crate::backend::Backend;
use crate::engine::{
    child_entry_wf, lemma_wf_one_append, lemma_wf_update_slot, scratch_data_entry_wf,
    scratch_op_entry_wf, tensor_wf, ChildEntry, Engine, ScratchDataEntry, ScratchOpEntry,
};
use crate::handle::{BufferHandle, LazyBufferHandle, TensorId};
use crate::node::{
    is_binary_op, node_wf, op_eq, op_key, op_operands, same_binary_op, spec_op_key, CreationType,
    LazyBuffer, LazyOp, LazybufferType, OpKey,
};
use vstd::prelude::*;

verus! {

/// Operand conditions shared by binary and memset registrations: both handles
/// registered, equal element counts.
pub open spec fn binop_args_ok(e: Engine, a: LazyBufferHandle, b: LazyBufferHandle) -> bool {
    &&& a.0 < e.nodes@.len()
    &&& b.0 < e.nodes@.len()
    &&& e.nodes@[a.0 as int].size == e.nodes@[b.0 as int].size
}

/// What `from_tensor_op` accepts: a binary operation over registered,
/// equal-sized operands, or a memset whose destination is a non-operation
/// node owned by the same tensor (a gradient accumulator slot) and not the
/// tensor's value buffer.
pub open spec fn from_tensor_op_req(e: Engine, tensor_id: TensorId, op: LazyOp) -> bool {
    match op {
        LazyOp::Add(a, b) => binop_args_ok(e, a, b),
        LazyOp::Subtract(a, b) => binop_args_ok(e, a, b),
        LazyOp::Multiply(a, b) => binop_args_ok(e, a, b),
        LazyOp::Divide(a, b) => binop_args_ok(e, a, b),
        LazyOp::Memset(a, b) => {
            &&& binop_args_ok(e, a, b)
            &&& (e.nodes@[a.0 as int].kind matches LazybufferType::TensorData(o) && o == tensor_id)
            &&& !is_binary_op(e.nodes@[a.0 as int].operation)
            &&& e.tensors@[tensor_id.0 as int].buffer != a
        },
        _ => false,
    }
}

/// What `scratch_op` accepts: an inline creation, a clear of a registered
/// node, or a binary operation over registered, equal-sized operands.
pub open spec fn scratch_op_req(e: Engine, op: LazyOp) -> bool {
    match op {
        LazyOp::Creation(CreationType::RawData(_)) => true,
        LazyOp::Clear(a) => a.0 < e.nodes@.len(),
        LazyOp::Add(a, b) => binop_args_ok(e, a, b),
        LazyOp::Subtract(a, b) => binop_args_ok(e, a, b),
        LazyOp::Multiply(a, b) => binop_args_ok(e, a, b),
        LazyOp::Divide(a, b) => binop_args_ok(e, a, b),
        _ => false,
    }
}

/// The element count a scratch-op node derives from its operation.
pub open spec fn scratch_op_size(nodes: Seq<LazyBuffer>, op: LazyOp) -> nat {
    match op {
        LazyOp::Creation(CreationType::RawData(d)) => d@.len(),
        LazyOp::Clear(a) => nodes[a.0 as int].size as nat,
        LazyOp::Add(a, _) => nodes[a.0 as int].size as nat,
        LazyOp::Subtract(a, _) => nodes[a.0 as int].size as nat,
        LazyOp::Multiply(a, _) => nodes[a.0 as int].size as nat,
        LazyOp::Divide(a, _) => nodes[a.0 as int].size as nat,
        _ => 0,
    }
}

/// Some lineage record of this tensor already carries this operation.
pub open spec fn child_hit(e: Engine, tensor_id: TensorId, op: LazyOp) -> bool {
    exists|j: int|
        #![trigger e.tensor_children@[j]]
        0 <= j < e.tensor_children@.len() && e.tensor_children@[j].owner == tensor_id
            && same_binary_op(e.nodes@[e.tensor_children@[j].handle.0 as int].operation, op)
}

/// The scratch-op cache holds this key.
pub open spec fn scratch_op_hit(e: Engine, key: OpKey) -> bool {
    exists|j: int|
        0 <= j < e.scratch_op_cache@.len() && #[trigger] e.scratch_op_cache@[j].key == key
}

/// The identity that the next registered node will receive: identities are
/// monotonic, and a node's identity is its registry index.
pub fn get_next_buffer_id(engine: &Engine) -> (h: LazyBufferHandle)
    ensures
        h.0 == engine.nodes@.len(),
{
    LazyBufferHandle(engine.nodes.len())
}

/// An element-wise copy of a word vector.
pub fn copy_words(v: &Vec<u32>) -> (r: Vec<u32>)
    ensures
        r@ == v@,
{
    let mut r: Vec<u32> = Vec::new();
    let mut i: usize = 0;
    while i < v.len()
        invariant
            i <= v@.len(),
            r@ =~= v@.subrange(0, i as int),
        decreases v@.len() - i,
    {
        r.push(v[i]);
        assert(r@ =~= v@.subrange(0, i + 1));
        i = i + 1;
    }
    assert(r@ =~= v@);
    r
}

/// Whether two word vectors hold the same words.
pub fn words_equal(a: &Vec<u32>, b: &Vec<u32>) -> (r: bool)
    ensures
        r <==> a@ == b@,
{
    if a.len() != b.len() {
        return false;
    }
    let mut i: usize = 0;
    while i < a.len()
        invariant
            a@.len() == b@.len(),
            i <= a@.len(),
            forall|k: int| 0 <= k < i ==> a@[k] == b@[k],
        decreases a@.len() - i,
    {
        if a[i] != b[i] {
            return false;
        }
        i = i + 1;
    }
    proof {
        assert(a@ =~= b@);
    }
    true
}

/// There is a scratch-data cache entry for exactly these words.
pub open spec fn scratch_data_hit(e: Engine, d: Seq<u32>) -> bool {
    exists|j: int|
        0 <= j < e.scratch_data_cache@.len() && #[trigger] e.scratch_data_cache@[j].data@ == d
}

/// Look the words up in the scratch-data cache.
fn find_scratch_data(engine: &Engine, data: &Vec<u32>) -> (r: Option<LazyBufferHandle>)
    ensures
        match r {
            Some(h) => exists|j: int|
                0 <= j < engine.scratch_data_cache@.len()
                    && #[trigger] engine.scratch_data_cache@[j].data@ == data@
                    && engine.scratch_data_cache@[j].handle == h,
            None => !scratch_data_hit(*engine, data@),
        },
{
    let mut j: usize = 0;
    while j < engine.scratch_data_cache.len()
        invariant
            j <= engine.scratch_data_cache@.len(),
            forall|k: int|
                0 <= k < j ==> #[trigger] engine.scratch_data_cache@[k].data@ != data@,
        decreases engine.scratch_data_cache@.len() - j,
    {
        if words_equal(&engine.scratch_data_cache[j].data, data) {
            return Some(engine.scratch_data_cache[j].handle);
        }
        j = j + 1;
    }
    None
}

/// Executable test of `same_binary_op`.
fn ops_match(op1: &LazyOp, op2: &LazyOp) -> (r: bool)
    ensures
        r == same_binary_op(*op1, *op2),
{
    match (op1, op2) {
        (LazyOp::Add(a1, b1), LazyOp::Add(a2, b2)) => a1 == a2 && b1 == b2,
        (LazyOp::Subtract(a1, b1), LazyOp::Subtract(a2, b2)) => a1 == a2 && b1 == b2,
        (LazyOp::Multiply(a1, b1), LazyOp::Multiply(a2, b2)) => a1 == a2 && b1 == b2,
        (LazyOp::Divide(a1, b1), LazyOp::Divide(a2, b2)) => a1 == a2 && b1 == b2,
        _ => false,
    }
}

/// The operand handles of a binary or memset operation.
pub(crate) fn operands_of(op: &LazyOp) -> (r: (LazyBufferHandle, LazyBufferHandle))
    requires
        is_binary_op(*op) || *op is Memset,
    ensures
        r == op_operands(*op),
{
    match op {
        LazyOp::Add(a, b) => (*a, *b),
        LazyOp::Subtract(a, b) => (*a, *b),
        LazyOp::Multiply(a, b) => (*a, *b),
        LazyOp::Divide(a, b) => (*a, *b),
        LazyOp::Memset(a, b) => (*a, *b),
        _ => {
            proof {
                assert(false);
            }
            (LazyBufferHandle(0), LazyBufferHandle(0))
        },
    }
}

/// Look an operation up among a tensor's lineage records.
fn find_child(engine: &Engine, tensor_id: TensorId, op: &LazyOp) -> (r: Option<LazyBufferHandle>)
    requires
        engine.wf(),
    ensures
        match r {
            Some(h) => exists|j: int|
                #![trigger engine.tensor_children@[j]]
                0 <= j < engine.tensor_children@.len() && engine.tensor_children@[j].owner
                    == tensor_id && same_binary_op(
                    engine.nodes@[engine.tensor_children@[j].handle.0 as int].operation,
                    *op,
                ) && engine.tensor_children@[j].handle == h,
            None => !child_hit(*engine, tensor_id, *op),
        },
{
    let mut j: usize = 0;
    while j < engine.tensor_children.len()
        invariant
            engine.wf(),
            j <= engine.tensor_children@.len(),
            forall|k: int|
                #![trigger engine.tensor_children@[k]]
                0 <= k < j ==> !(engine.tensor_children@[k].owner == tensor_id && same_binary_op(
                    engine.nodes@[engine.tensor_children@[k].handle.0 as int].operation,
                    *op,
                )),
        decreases engine.tensor_children@.len() - j,
    {
        proof {
            assert(child_entry_wf(engine.nodes@, engine.tensor_children@[j as int]));
        }
        let entry_owner = engine.tensor_children[j].owner;
        let entry_handle = engine.tensor_children[j].handle;
        if entry_owner == tensor_id && ops_match(&engine.nodes[entry_handle.0].operation, op) {
            return Some(entry_handle);
        }
        j = j + 1;
    }
    None
}

/// Look a normalized key up in the scratch-op cache.
fn find_scratch_op(engine: &Engine, key: OpKey) -> (r: Option<LazyBufferHandle>)
    ensures
        match r {
            Some(h) => exists|j: int|
                0 <= j < engine.scratch_op_cache@.len() && #[trigger] engine.scratch_op_cache@[j].key
                    == key && engine.scratch_op_cache@[j].handle == h,
            None => !scratch_op_hit(*engine, key),
        },
{
    let mut j: usize = 0;
    while j < engine.scratch_op_cache.len()
        invariant
            j <= engine.scratch_op_cache@.len(),
            forall|k: int| 0 <= k < j ==> #[trigger] engine.scratch_op_cache@[k].key != key,
        decreases engine.scratch_op_cache@.len() - j,
    {
        if engine.scratch_op_cache[j].key == key {
            return Some(engine.scratch_op_cache[j].handle);
        }
        j = j + 1;
    }
    None
}

impl LazyBuffer {
    /// Register a creation node owned by a tensor, holding the given host
    /// data.
    pub fn new(engine: &mut Engine, tensor_id: TensorId, data: Vec<u32>) -> (r: LazyBufferHandle)
        requires
            old(engine).wf(),
            tensor_id.0 < old(engine).tensors@.len(),
        ensures
            final (engine).wf(),
            r.0 == old(engine).nodes@.len(),
            final (engine).nodes@.len() == old(engine).nodes@.len() + 1,
            forall|j: int| 0 <= j < old(engine).nodes@.len() ==> final (engine).nodes@[j] == old(
                engine,
            ).nodes@[j],
            final (engine).nodes@[r.0 as int].id == r,
            final (engine).nodes@[r.0 as int].kind == LazybufferType::TensorData(tensor_id),
            final (engine).nodes@[r.0 as int].size == data@.len(),
            final (engine).nodes@[r.0 as int].operation == LazyOp::Creation(
                CreationType::RawData(data),
            ),
            final (engine).nodes@[r.0 as int].device_buffer is None,
            final (engine).tensors@ == old(engine).tensors@,
            final (engine).caches_unchanged(*old(engine)),
    {
        let id = LazyBufferHandle(engine.nodes.len());
        let size = data.len();
        let node = LazyBuffer {
            id,
            kind: LazybufferType::TensorData(tensor_id),
            size,
            operation: LazyOp::Creation(CreationType::RawData(data)),
            device_buffer: None,
        };
        engine.nodes.push(node);
        proof {
            assert(node_wf(engine.nodes@, engine.tensors@.len(), id.0 as int));
            crate::engine::lemma_wf_one_append(*old(engine), *engine);
        }
        id
    }

    /// Register (or re-use) a scratch creation node for the given host data.
    /// Scratch creations are deduplicated by value: two calls with equal
    /// words return the same handle, and the second call leaves the registry
    /// unchanged.
    pub fn scratch(engine: &mut Engine, data: Vec<u32>) -> (r: LazyBufferHandle)
        requires
            old(engine).wf(),
        ensures
            final (engine).wf(),
            final (engine).tensors@ == old(engine).tensors@,
            final (engine).scratch_op_cache@ == old(engine).scratch_op_cache@,
            final (engine).tensor_children@ == old(engine).tensor_children@,
            final (engine).tensor_op_cache@ == old(engine).tensor_op_cache@,
            r.0 < final (engine).nodes@.len(),
            final (engine).nodes@[r.0 as int].kind is Scratch,
            final (engine).nodes@[r.0 as int].size == data@.len(),
            final (engine).nodes@[r.0 as int].operation is Creation,
            scratch_data_hit(*old(engine), data@) ==> {
                &&& final (engine).nodes@ == old(engine).nodes@
                &&& final (engine).scratch_data_cache@ == old(engine).scratch_data_cache@
                &&& forall|j: int|
                    0 <= j < old(engine).scratch_data_cache@.len() && #[trigger] old(
                        engine,
                    ).scratch_data_cache@[j].data@ == data@ ==> r == old(
                        engine,
                    ).scratch_data_cache@[j].handle
            },
            !scratch_data_hit(*old(engine), data@) ==> {
                &&& r.0 == old(engine).nodes@.len()
                &&& final (engine).nodes@.len() == old(engine).nodes@.len() + 1
                &&& forall|j: int| 0 <= j < old(engine).nodes@.len() ==> final (engine).nodes@[j] == old(
                    engine,
                ).nodes@[j]
                &&& final (engine).nodes@[r.0 as int].operation == LazyOp::Creation(
                    CreationType::RawData(data),
                )
                &&& final (engine).nodes@[r.0 as int].device_buffer is None
                &&& final (engine).scratch_data_cache@.len() == old(engine).scratch_data_cache@.len() + 1
                &&& forall|j: int|
                    0 <= j < old(engine).scratch_data_cache@.len() ==> final (engine).scratch_data_cache@[j]
                        == old(engine).scratch_data_cache@[j]
                &&& final (engine).scratch_data_cache@.last().data@ == data@
                &&& final (engine).scratch_data_cache@.last().handle == r
            },
    {
        let cached = find_scratch_data(engine, &data);
        match cached {
            Some(h) => {
                proof {
                    let j = choose|j: int|
                        0 <= j < engine.scratch_data_cache@.len()
                            && #[trigger] engine.scratch_data_cache@[j].data@ == data@
                            && engine.scratch_data_cache@[j].handle == h;
                    assert(scratch_data_entry_wf(engine.nodes@, engine.scratch_data_cache@[j]));
                    assert forall|k: int|
                        0 <= k < engine.scratch_data_cache@.len()
                            && #[trigger] engine.scratch_data_cache@[k].data@ == data@ implies h
                        == engine.scratch_data_cache@[k].handle by {
                        if k != j {
                            assert(engine.scratch_data_cache@[j].data@
                                == engine.scratch_data_cache@[k].data@);
                        }
                    }
                }
                h
            },
            None => {
                let id = LazyBufferHandle(engine.nodes.len());
                let size = data.len();
                let data_copy = copy_words(&data);
                let node = LazyBuffer {
                    id,
                    kind: LazybufferType::Scratch,
                    size,
                    operation: LazyOp::Creation(CreationType::RawData(data)),
                    device_buffer: None,
                };
                engine.nodes.push(node);
                engine.scratch_data_cache.push(
                    ScratchDataEntry { data: data_copy, handle: id },
                );
                proof {
                    assert(node_wf(engine.nodes@, engine.tensors@.len(), id.0 as int));
                    assert(scratch_data_entry_wf(engine.nodes@, engine.scratch_data_cache@.last()));
                    crate::engine::lemma_wf_one_append(*old(engine), *engine);
                }
                id
            },
        }
    }

    /// Register an operation node owned by a tensor.
    ///
    /// A binary operation first consults the tensor's lineage: if a prior
    /// record of this tensor carries the same operation over the same
    /// operands, that node is returned and nothing changes (structural CSE
    /// within one lineage).  Otherwise a fresh node is appended and recorded.
    ///
    /// A memset is the special case that keeps accumulator identity stable:
    /// it reuses the destination's identity, overwriting that registry slot
    /// in place.
    pub fn from_tensor_op(engine: &mut Engine, tensor_id: TensorId, op: LazyOp) -> (r:
        LazyBufferHandle)
        requires
            old(engine).wf(),
            tensor_id.0 < old(engine).tensors@.len(),
            from_tensor_op_req(*old(engine), tensor_id, op),
        ensures
            final (engine).wf(),
            final (engine).tensors@ == old(engine).tensors@,
            final (engine).scratch_data_cache@ == old(engine).scratch_data_cache@,
            final (engine).scratch_op_cache@ == old(engine).scratch_op_cache@,
            final (engine).tensor_op_cache@ == old(engine).tensor_op_cache@,
            r.0 < final (engine).nodes@.len(),
            (final (engine).nodes@[r.0 as int].kind matches LazybufferType::TensorData(o) && o
                == tensor_id),
            final (engine).nodes@[r.0 as int].size == old(engine).nodes@[op_operands(
                op,
            ).0.0 as int].size,
            op is Memset ==> {
                &&& r == op_operands(op).0
                &&& final (engine).nodes@.len() == old(engine).nodes@.len()
                &&& (forall|j: int|
                    0 <= j < old(engine).nodes@.len() && j != r.0 ==> final (engine).nodes@[j]
                        == old(engine).nodes@[j])
                &&& final (engine).nodes@[r.0 as int] == (LazyBuffer {
                    id: r,
                    kind: LazybufferType::TensorData(tensor_id),
                    size: old(engine).nodes@[r.0 as int].size,
                    operation: op,
                    device_buffer: None,
                })
                &&& final (engine).tensor_children@ == old(engine).tensor_children@
            },
            is_binary_op(op) && child_hit(*old(engine), tensor_id, op) ==> {
                &&& final (engine).nodes@ == old(engine).nodes@
                &&& final (engine).tensor_children@ == old(engine).tensor_children@
                &&& same_binary_op(final (engine).nodes@[r.0 as int].operation, op)
                &&& (forall|j: int|
                    #![trigger old(engine).tensor_children@[j]]
                    0 <= j < old(engine).tensor_children@.len() && old(
                        engine,
                    ).tensor_children@[j].owner == tensor_id && same_binary_op(
                        old(engine).nodes@[old(engine).tensor_children@[j].handle.0 as int].operation,
                        op,
                    ) ==> r == old(engine).tensor_children@[j].handle)
            },
            is_binary_op(op) && !child_hit(*old(engine), tensor_id, op) ==> {
                &&& r.0 == old(engine).nodes@.len()
                &&& final (engine).nodes@.len() == old(engine).nodes@.len() + 1
                &&& (forall|j: int|
                    0 <= j < old(engine).nodes@.len() ==> final (engine).nodes@[j] == old(
                        engine,
                    ).nodes@[j])
                &&& final (engine).nodes@[r.0 as int] == (LazyBuffer {
                    id: r,
                    kind: LazybufferType::TensorData(tensor_id),
                    size: old(engine).nodes@[op_operands(op).0.0 as int].size,
                    operation: op,
                    device_buffer: None,
                })
                &&& final (engine).tensor_children@.len() == old(engine).tensor_children@.len() + 1
                &&& (forall|j: int|
                    0 <= j < old(engine).tensor_children@.len()
                        ==> final (engine).tensor_children@[j] == old(
                        engine,
                    ).tensor_children@[j])
                &&& final (engine).tensor_children@.last().owner == tensor_id
                &&& final (engine).tensor_children@.last().handle == r
            },
    {
        let (a, b) = operands_of(&op);
        let size_a = engine.nodes[a.0].size;
        if matches!(&op, LazyOp::Memset(_, _)) {
            let node = LazyBuffer {
                id: a,
                kind: LazybufferType::TensorData(tensor_id),
                size: size_a,
                operation: op,
                device_buffer: None,
            };
            engine.nodes.set(a.0, node);
            proof {
                assert forall|t: int|
                    0 <= t < old(engine).tensors@.len() implies old(engine).tensors@[t].buffer.0
                    != a.0 by {
                    assert(tensor_wf(old(engine).nodes@, old(engine).tensors@, t));
                    if old(engine).tensors@[t].buffer.0 == a.0 {
                        assert(t == tensor_id.0);
                    }
                }
                assert(node_wf(engine.nodes@, engine.tensors@.len(), a.0 as int));
                lemma_wf_update_slot(*old(engine), *engine, a.0 as int);
            }
            a
        } else {
            let cached = find_child(engine, tensor_id, &op);
            match cached {
                Some(h) => {
                    proof {
                        let j = choose|j: int|
                            #![trigger engine.tensor_children@[j]]
                            0 <= j < engine.tensor_children@.len()
                                && engine.tensor_children@[j].owner == tensor_id
                                && same_binary_op(
                                engine.nodes@[engine.tensor_children@[j].handle.0 as int].operation,
                                op,
                            ) && engine.tensor_children@[j].handle == h;
                        assert(child_entry_wf(engine.nodes@, engine.tensor_children@[j]));
                        assert(node_wf(engine.nodes@, engine.tensors@.len(), h.0 as int));
                        assert forall|k: int|
                            #![trigger engine.tensor_children@[k]]
                            0 <= k < engine.tensor_children@.len()
                                && engine.tensor_children@[k].owner == tensor_id
                                && same_binary_op(
                                engine.nodes@[engine.tensor_children@[k].handle.0 as int].operation,
                                op,
                            ) implies h == engine.tensor_children@[k].handle by {
                            if k != j {
                                assert(!same_binary_op(
                                    engine.nodes@[engine.tensor_children@[if j < k {
                                        j
                                    } else {
                                        k
                                    }].handle.0 as int].operation,
                                    engine.nodes@[engine.tensor_children@[if j < k {
                                        k
                                    } else {
                                        j
                                    }].handle.0 as int].operation,
                                ));
                            }
                        }
                    }
                    h
                },
                None => {
                    let id = LazyBufferHandle(engine.nodes.len());
                    let node = LazyBuffer {
                        id,
                        kind: LazybufferType::TensorData(tensor_id),
                        size: size_a,
                        operation: op,
                        device_buffer: None,
                    };
                    engine.nodes.push(node);
                    engine.tensor_children.push(ChildEntry { owner: tensor_id, handle: id });
                    proof {
                        assert(node_wf(engine.nodes@, engine.tensors@.len(), id.0 as int));
                        assert(child_entry_wf(engine.nodes@, engine.tensor_children@.last()));
                        assert forall|j: int|
                            0 <= j < old(engine).tensor_children@.len() && #[trigger] old(
                                engine,
                            ).tensor_children@[j].owner == engine.tensor_children@.last().owner
                            implies !same_binary_op(
                            engine.nodes@[old(engine).tensor_children@[j].handle.0 as int].operation,
                            engine.nodes@[engine.tensor_children@.last().handle.0 as int].operation,
                        ) by {
                            assert(child_entry_wf(
                                old(engine).nodes@,
                                old(engine).tensor_children@[j],
                            ));
                            assert(engine.nodes@[old(engine).tensor_children@[j].handle.0 as int]
                                == old(engine).nodes@[old(
                                engine,
                            ).tensor_children@[j].handle.0 as int]);
                        }
                        lemma_wf_one_append(*old(engine), *engine);
                    }
                    id
                },
            }
        }
    }

    /// Register (or re-use) a scratch operation node.  Cacheable operations
    /// are deduplicated by their normalized key, so the commutative
    /// operations share a node with their operand-swapped form; inline
    /// creations are never cached.
    pub fn scratch_op(engine: &mut Engine, op: LazyOp) -> (r: LazyBufferHandle)
        requires
            old(engine).wf(),
            scratch_op_req(*old(engine), op),
        ensures
            final (engine).wf(),
            final (engine).tensors@ == old(engine).tensors@,
            final (engine).scratch_data_cache@ == old(engine).scratch_data_cache@,
            final (engine).tensor_children@ == old(engine).tensor_children@,
            final (engine).tensor_op_cache@ == old(engine).tensor_op_cache@,
            r.0 < final (engine).nodes@.len(),
            final (engine).nodes@[r.0 as int].kind is Scratch,
            final (engine).nodes@[r.0 as int].size == scratch_op_size(old(engine).nodes@, op),
            spec_op_key(op) is Some && scratch_op_hit(*old(engine), spec_op_key(op).unwrap())
                ==> {
                &&& final (engine).nodes@ == old(engine).nodes@
                &&& final (engine).scratch_op_cache@ == old(engine).scratch_op_cache@
                &&& spec_op_key(final (engine).nodes@[r.0 as int].operation) == spec_op_key(op)
                &&& (forall|j: int|
                    0 <= j < old(engine).scratch_op_cache@.len() && #[trigger] old(
                        engine,
                    ).scratch_op_cache@[j].key == spec_op_key(op).unwrap() ==> r == old(
                        engine,
                    ).scratch_op_cache@[j].handle)
            },
            !(spec_op_key(op) is Some && scratch_op_hit(*old(engine), spec_op_key(op).unwrap()))
                ==> {
                &&& r.0 == old(engine).nodes@.len()
                &&& final (engine).nodes@.len() == old(engine).nodes@.len() + 1
                &&& (forall|j: int|
                    0 <= j < old(engine).nodes@.len() ==> final (engine).nodes@[j] == old(
                        engine,
                    ).nodes@[j])
                &&& final (engine).nodes@[r.0 as int].operation == op
                &&& final (engine).nodes@[r.0 as int].id == r
                &&& final (engine).nodes@[r.0 as int].device_buffer is None
                &&& (spec_op_key(op) is Some ==> {
                    &&& final (engine).scratch_op_cache@.len() == old(
                        engine,
                    ).scratch_op_cache@.len() + 1
                    &&& (forall|j: int|
                        0 <= j < old(engine).scratch_op_cache@.len()
                            ==> final (engine).scratch_op_cache@[j] == old(
                            engine,
                        ).scratch_op_cache@[j])
                    &&& final (engine).scratch_op_cache@.last().key == spec_op_key(op).unwrap()
                    &&& final (engine).scratch_op_cache@.last().handle == r
                })
                &&& (spec_op_key(op) is None ==> final (engine).scratch_op_cache@ == old(
                    engine,
                ).scratch_op_cache@)
            },
    {
        let key_opt = op_key(&op);
        if let Some(key) = key_opt {
            let cached = find_scratch_op(engine, key);
            if let Some(h) = cached {
                proof {
                    let j = choose|j: int|
                        0 <= j < engine.scratch_op_cache@.len()
                            && #[trigger] engine.scratch_op_cache@[j].key == key
                            && engine.scratch_op_cache@[j].handle == h;
                    assert(scratch_op_entry_wf(engine.nodes@, engine.scratch_op_cache@[j]));
                    assert(node_wf(engine.nodes@, engine.tensors@.len(), h.0 as int));
                    assert forall|k: int|
                        0 <= k < engine.scratch_op_cache@.len()
                            && #[trigger] engine.scratch_op_cache@[k].key == key implies h
                        == engine.scratch_op_cache@[k].handle by {
                        if k != j {
                            assert(engine.scratch_op_cache@[j].key
                                != engine.scratch_op_cache@[k].key);
                        }
                    }
                    lemma_same_key_same_size(*engine, op, h);
                }
                return h;
            }
        }
        let id = LazyBufferHandle(engine.nodes.len());
        let size = match &op {
            LazyOp::Creation(CreationType::RawData(d)) => d.len(),
            LazyOp::Clear(x) => engine.nodes[x.0].size,
            LazyOp::Add(x, _) => engine.nodes[x.0].size,
            LazyOp::Subtract(x, _) => engine.nodes[x.0].size,
            LazyOp::Multiply(x, _) => engine.nodes[x.0].size,
            LazyOp::Divide(x, _) => engine.nodes[x.0].size,
            _ => {
                proof {
                    assert(false);
                }
                0
            },
        };
        let node = LazyBuffer {
            id,
            kind: LazybufferType::Scratch,
            size,
            operation: op,
            device_buffer: None,
        };
        engine.nodes.push(node);
        if let Some(key) = key_opt {
            engine.scratch_op_cache.push(ScratchOpEntry { key, handle: id });
            proof {
                assert(node_wf(engine.nodes@, engine.tensors@.len(), id.0 as int));
                assert(scratch_op_entry_wf(engine.nodes@, engine.scratch_op_cache@.last()));
                lemma_wf_one_append(*old(engine), *engine);
            }
        } else {
            proof {
                assert(node_wf(engine.nodes@, engine.tensors@.len(), id.0 as int));
                lemma_wf_one_append(*old(engine), *engine);
            }
        }
        id
    }
}

/// Two operations with the same normalized key derive the same element count:
/// the key fixes the operand set, and a well-formed registry gives both
/// operands of a cached node one size.
proof fn lemma_same_key_same_size(e: Engine, op: LazyOp, h: LazyBufferHandle)
    requires
        e.wf(),
        scratch_op_req(e, op),
        h.0 < e.nodes@.len(),
        node_wf(e.nodes@, e.tensors@.len(), h.0 as int),
        spec_op_key(e.nodes@[h.0 as int].operation) == spec_op_key(op),
        spec_op_key(op) is Some,
    ensures
        e.nodes@[h.0 as int].size == scratch_op_size(e.nodes@, op),
{
}

impl LazyBufferHandle {
    /// The element count of the node.
    pub fn get_size(&self, engine: &Engine) -> (r: usize)
        requires
            self.0 < engine.nodes@.len(),
        ensures
            r == engine.nodes@[self.0 as int].size,
    {
        engine.nodes[self.0].size
    }

    /// The operation recorded on the node (inline creation data is returned
    /// as a copy with the same words).
    pub fn get_op(&self, engine: &Engine) -> (r: LazyOp)
        requires
            self.0 < engine.nodes@.len(),
        ensures
            op_eq(r, engine.nodes@[self.0 as int].operation),
    {
        match &engine.nodes[self.0].operation {
            LazyOp::Creation(CreationType::Random) => LazyOp::Creation(CreationType::Random),
            LazyOp::Creation(CreationType::Created) => LazyOp::Creation(CreationType::Created),
            LazyOp::Creation(CreationType::RawData(d)) => LazyOp::Creation(
                CreationType::RawData(copy_words(d)),
            ),
            LazyOp::Clear(a) => LazyOp::Clear(*a),
            LazyOp::Add(a, b) => LazyOp::Add(*a, *b),
            LazyOp::Subtract(a, b) => LazyOp::Subtract(*a, *b),
            LazyOp::Multiply(a, b) => LazyOp::Multiply(*a, *b),
            LazyOp::Divide(a, b) => LazyOp::Divide(*a, *b),
            LazyOp::Memset(a, b) => LazyOp::Memset(*a, *b),
        }
    }

    /// The tensor that owns the node, if any; scratch nodes have none.
    pub fn get_tensor_id(&self, engine: &Engine) -> (r: Option<TensorId>)
        requires
            self.0 < engine.nodes@.len(),
        ensures
            match engine.nodes@[self.0 as int].kind {
                LazybufferType::Scratch => r is None,
                LazybufferType::TensorData(t) => r == Some(t),
            },
    {
        match engine.nodes[self.0].kind {
            LazybufferType::Scratch => None,
            LazybufferType::TensorData(t) => Some(t),
        }
    }

    /// The device buffer the node was realized into, if it has been realized.
    pub fn get_device_handle(&self, engine: &Engine) -> (r: Option<BufferHandle>)
        requires
            self.0 < engine.nodes@.len(),
        ensures
            r == engine.nodes@[self.0 as int].device_buffer,
    {
        engine.nodes[self.0].device_buffer
    }

    /// Forget the node's device buffer, so that the next realization
    /// recomputes it.  (Realization skips nodes that already carry a device
    /// buffer; this is the explicit way to undo that.)
    pub fn clear(&self, engine: &mut Engine)
        requires
            old(engine).wf(),
            self.0 < old(engine).nodes@.len(),
        ensures
            final (engine).wf(),
            final (engine).nodes@.len() == old(engine).nodes@.len(),
            forall|j: int|
                0 <= j < old(engine).nodes@.len() && j != self.0 ==> final (engine).nodes@[j] == old(
                    engine,
                ).nodes@[j],
            final (engine).nodes@[self.0 as int] == (LazyBuffer {
                device_buffer: None,
                ..old(engine).nodes@[self.0 as int]
            }),
            final (engine).tensors@ == old(engine).tensors@,
            final (engine).caches_unchanged(*old(engine)),
    {
        let node_ref = &mut engine.nodes[self.0];
        node_ref.device_buffer = None;
        proof {
            lemma_clear_preserves_wf(*old(engine), *engine, self.0 as int);
        }
    }

    /// Download the node's realized contents from the backend.
    pub fn get_data<B: Backend>(&self, engine: &Engine, backend: &B) -> (r: Vec<u32>)
        requires
            engine.wf(),
            engine.backend_fits(backend.contents()),
            self.0 < engine.nodes@.len(),
            engine.nodes@[self.0 as int].device_buffer is Some,
        ensures
            r@ == backend.contents()[self.0 as int],
    {
        proof {
            assert(node_wf(engine.nodes@, engine.tensors@.len(), self.0 as int));
        }
        let handle = engine.nodes[self.0].device_buffer.unwrap();
        backend.read_buffer(&handle)
    }
}

/// Dropping a node's device buffer preserves the engine invariant: no
/// component of well-formedness reads the device field of another node.
proof fn lemma_clear_preserves_wf(e1: Engine, e2: Engine, i: int)
    requires
        e1.wf(),
        0 <= i < e1.nodes@.len(),
        e2.nodes@.len() == e1.nodes@.len(),
        forall|j: int| 0 <= j < e1.nodes@.len() && j != i ==> e2.nodes@[j] == e1.nodes@[j],
        e2.nodes@[i] == (LazyBuffer { device_buffer: None, ..e1.nodes@[i] }),
        e2.tensors@ == e1.tensors@,
        e2.scratch_data_cache@ == e1.scratch_data_cache@,
        e2.scratch_op_cache@ == e1.scratch_op_cache@,
        e2.tensor_children@ == e1.tensor_children@,
        e2.tensor_op_cache@ == e1.tensor_op_cache@,
    ensures
        e2.wf(),
{
    assert forall|x: int|
        0 <= x < e2.nodes@.len() implies #[trigger] e2.nodes@[x].size == e1.nodes@[x].size
            && e2.nodes@[x].kind == e1.nodes@[x].kind && e2.nodes@[x].operation
            == e1.nodes@[x].operation by {}
    assert forall|x: int|
        0 <= x < e2.nodes@.len() implies #[trigger] node_wf(e2.nodes@, e2.tensors@.len(), x) by {
        assert(node_wf(e1.nodes@, e1.tensors@.len(), x));
        assert(e2.nodes@[x].operation == e1.nodes@[x].operation);
    }
    assert forall|t: int|
        0 <= t < e2.tensors@.len() implies #[trigger] crate::engine::tensor_wf(
        e2.nodes@,
        e2.tensors@,
        t,
    ) by {
        assert(crate::engine::tensor_wf(e1.nodes@, e1.tensors@, t));
        assert(e2.nodes@[e1.tensors@[t].buffer.0 as int].operation == e1.nodes@[e1.tensors@[t].buffer.0 as int].operation);
    }
    assert forall|j: int|
        0 <= j < e2.scratch_data_cache@.len() implies #[trigger] scratch_data_entry_wf(
        e2.nodes@,
        e2.scratch_data_cache@[j],
    ) by {
        assert(scratch_data_entry_wf(e1.nodes@, e1.scratch_data_cache@[j]));
    }
    assert forall|j: int|
        0 <= j < e2.scratch_op_cache@.len() implies #[trigger] scratch_op_entry_wf(
        e2.nodes@,
        e2.scratch_op_cache@[j],
    ) by {
        assert(scratch_op_entry_wf(e1.nodes@, e1.scratch_op_cache@[j]));
        assert(e2.nodes@[e1.scratch_op_cache@[j].handle.0 as int].operation
            == e1.nodes@[e1.scratch_op_cache@[j].handle.0 as int].operation);
    }
    assert forall|j: int|
        0 <= j < e2.tensor_children@.len() implies #[trigger] child_entry_wf(
        e2.nodes@,
        e2.tensor_children@[j],
    ) by {
        assert(child_entry_wf(e1.nodes@, e1.tensor_children@[j]));
        assert(e2.nodes@[e1.tensor_children@[j].handle.0 as int].operation
            == e1.nodes@[e1.tensor_children@[j].handle.0 as int].operation);
    }
    assert forall|j: int, k: int|
        0 <= j < k < e2.tensor_children@.len() && #[trigger] e2.tensor_children@[j].owner
            == #[trigger] e2.tensor_children@[k].owner implies !crate::node::same_binary_op(
        e2.nodes@[e2.tensor_children@[j].handle.0 as int].operation,
        e2.nodes@[e2.tensor_children@[k].handle.0 as int].operation,
    ) by {
        assert(child_entry_wf(e1.nodes@, e1.tensor_children@[j]));
        assert(child_entry_wf(e1.nodes@, e1.tensor_children@[k]));
        assert(e2.nodes@[e1.tensor_children@[j].handle.0 as int].operation
            == e1.nodes@[e1.tensor_children@[j].handle.0 as int].operation);
        assert(e2.nodes@[e1.tensor_children@[k].handle.0 as int].operation
            == e1.nodes@[e1.tensor_children@[k].handle.0 as int].operation);
    }
    assert forall|j: int|
        0 <= j < e2.tensor_op_cache@.len() implies #[trigger] crate::engine::tensor_op_entry_wf(
        e2.nodes@,
        e2.tensors@,
        e2.tensor_op_cache@[j],
    ) by {
        assert(crate::engine::tensor_op_entry_wf(e1.nodes@, e1.tensors@, e1.tensor_op_cache@[j]));
        let e = e1.tensor_op_cache@[j];
        assert(e2.nodes@[e1.tensors@[e.tensor.0 as int].buffer.0 as int].operation
            == e1.nodes@[e1.tensors@[e.tensor.0 as int].buffer.0 as int].operation);
    }
}

} // verus!
