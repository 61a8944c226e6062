//! Engine-level tests: registration, structural sharing, deduplication and
//! the graph rendering, none of which need a backend.

use flamer::engine::Engine;
use flamer::handle::LazyBufferHandle;
use flamer::handle::TensorId;
use flamer::lazybuffer::get_next_buffer_id;
use flamer::node::LazyBuffer;
use flamer::node::LazyOp;
use flamer::tensor::get_next_tensor_id;
use flamer::tensor::Tensor;

fn words(v: &[f32]) -> Vec<u32> {
    v.iter().map(|x| x.to_bits()).collect()
}

#[test]
fn next_ids_are_monotonic() {
    let mut engine = Engine::new();
    assert_eq!(get_next_buffer_id(&engine).0, 0);
    assert_eq!(get_next_tensor_id(&engine).0, 0);
    let a = Tensor::new(&mut engine, words(&[1.0, 2.0]));
    assert_eq!(a.id.0, 0);
    assert_eq!(a.buffer.0, 0);
    assert_eq!(get_next_buffer_id(&engine).0, 1);
    assert_eq!(get_next_tensor_id(&engine).0, 1);
    assert_eq!(Tensor::storage_len(&engine), 1);
}

#[test]
fn tensor_op_cse_returns_same_identity() {
    let mut engine = Engine::new();
    let a = Tensor::new(&mut engine, words(&[1.0, 2.0, 3.0]));
    let b = Tensor::new(&mut engine, words(&[4.0, 5.0, 6.0]));
    let before = engine.node_count();
    let c1 = a.add(&b, &mut engine);
    let after_first = engine.node_count();
    let c2 = a.add(&b, &mut engine);
    let after_second = engine.node_count();
    assert_eq!(c1.id, c2.id);
    assert_eq!(after_first, before + 1);
    assert_eq!(after_second, after_first);
}

#[test]
fn different_ops_get_different_tensors() {
    let mut engine = Engine::new();
    let a = Tensor::new(&mut engine, words(&[1.0, 2.0]));
    let b = Tensor::new(&mut engine, words(&[3.0, 4.0]));
    let c = a.add(&b, &mut engine);
    let d = a.mul(&b, &mut engine);
    assert_ne!(c.id, d.id);
}

#[test]
fn scratch_data_is_deduplicated() {
    let mut engine = Engine::new();
    let h1 = LazyBuffer::scratch(&mut engine, words(&[1.0, 1.0, 1.0]));
    let before = engine.node_count();
    let h2 = LazyBuffer::scratch(&mut engine, words(&[1.0, 1.0, 1.0]));
    assert_eq!(h1, h2);
    assert_eq!(engine.node_count(), before);
    let h3 = LazyBuffer::scratch(&mut engine, words(&[2.0, 1.0, 1.0]));
    assert_ne!(h1, h3);
}

#[test]
fn scratch_ops_normalize_commutative_operands() {
    let mut engine = Engine::new();
    let a = LazyBuffer::scratch(&mut engine, words(&[1.0, 2.0]));
    let b = LazyBuffer::scratch(&mut engine, words(&[3.0, 4.0]));
    let s1 = LazyBuffer::scratch_op(&mut engine, LazyOp::Add(a, b));
    let s2 = LazyBuffer::scratch_op(&mut engine, LazyOp::Add(b, a));
    assert_eq!(s1, s2);
    let m1 = LazyBuffer::scratch_op(&mut engine, LazyOp::Multiply(a, b));
    let m2 = LazyBuffer::scratch_op(&mut engine, LazyOp::Multiply(b, a));
    assert_eq!(m1, m2);
    let d1 = LazyBuffer::scratch_op(&mut engine, LazyOp::Subtract(a, b));
    let d2 = LazyBuffer::scratch_op(&mut engine, LazyOp::Subtract(b, a));
    assert_ne!(d1, d2);
}

#[test]
fn lineage_cse_reuses_the_node() {
    let mut engine = Engine::new();
    let a = Tensor::new(&mut engine, words(&[1.0, 2.0]));
    let b = Tensor::new(&mut engine, words(&[3.0, 4.0]));
    let owner = a.id;
    let h1 = LazyBuffer::from_tensor_op(&mut engine, owner, LazyOp::Add(a.buffer, b.buffer));
    let before = engine.node_count();
    let h2 = LazyBuffer::from_tensor_op(&mut engine, owner, LazyOp::Add(a.buffer, b.buffer));
    assert_eq!(h1, h2);
    assert_eq!(engine.node_count(), before);
    let h3 = LazyBuffer::from_tensor_op(&mut engine, owner, LazyOp::Add(b.buffer, a.buffer));
    assert_ne!(h1, h3);
}

#[test]
fn scratch_op_creations_are_not_cached() {
    let mut engine = Engine::new();
    let c1 = LazyBuffer::scratch_op(
        &mut engine,
        LazyOp::Creation(flamer::node::CreationType::RawData(words(&[1.0]))),
    );
    let c2 = LazyBuffer::scratch_op(
        &mut engine,
        LazyOp::Creation(flamer::node::CreationType::RawData(words(&[1.0]))),
    );
    assert_ne!(c1, c2);
}

#[test]
fn handle_getters_report_the_node() {
    let mut engine = Engine::new();
    let a = Tensor::new(&mut engine, words(&[1.0, 2.0, 3.0]));
    assert_eq!(a.buffer.get_size(&engine), 3);
    assert_eq!(a.buffer.get_tensor_id(&engine), Some(TensorId(0)));
    assert!(a.buffer.get_device_handle(&engine).is_none());
    let sc = LazyBuffer::scratch(&mut engine, words(&[9.0]));
    assert_eq!(sc.get_tensor_id(&engine), None);
    match a.buffer.get_op(&engine) {
        LazyOp::Creation(_) => {}
        other => panic!("unexpected operation {:?}", other),
    }
}

#[test]
fn graph_viz_renders_infix() {
    let mut engine = Engine::new();
    let a = Tensor::new(&mut engine, words(&[1.0, 2.0]));
    let b = Tensor::new(&mut engine, words(&[3.0, 4.0]));
    let c = a.add(&b, &mut engine);
    assert_eq!(c.buffer.get_comp_graph_viz(&engine), "(Data[0]+Data[1])");
    let d = c.mul(&b, &mut engine);
    assert_eq!(d.buffer.get_comp_graph_viz(&engine), "((Data[0]+Data[1])*Data[1])");
}

#[test]
fn null_handle_is_the_sentinel() {
    assert_eq!(flamer::handle::lazybuffer_handle_null().0, usize::MAX);
    assert_eq!(LazyBufferHandle(usize::MAX), flamer::handle::lazybuffer_handle_null());
}

#[test]
fn rule_words_encode_unit_constants() {
    assert_eq!(flamer::tensor::WORD_ONE, 1.0f32.to_bits());
    assert_eq!(flamer::tensor::WORD_NEG_ONE, (-1.0f32).to_bits());
}
