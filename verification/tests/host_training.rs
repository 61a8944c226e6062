//! End-to-end tests against an in-process host backend: realization, value
//! semantics, idempotent re-realization, gradient propagation, the training
//! step, cycle detection, and the buffer pool.

use std::collections::HashMap;

use flamer::backend::Backend;
use flamer::handle::{BufferHandle, LazyBufferHandle};
use flamer::node::LazyOp;
use flamer::engine::Engine;
use flamer::node::LazyBuffer;
use flamer::schedule::RealizeError;
use flamer::tensor::Tensor;
use flamer::training::{
    begin_training_loop, end_training_loop, free_all_cached_buffers, get_cached_buffer,
    return_buffer_to_cache, BufferPool,
};

/// The reference host backend: buffers are word vectors in a table, the four
/// operations apply IEEE-754 single-precision arithmetic to the words, and a
/// zero divisor yields a NaN word.  Counters record the operations issued.
struct HostBackend {
    buffers: HashMap<usize, Vec<u32>>,
    add_calls: usize,
    upload_calls: usize,
}

impl HostBackend {
    fn new() -> HostBackend {
        HostBackend { buffers: HashMap::new(), add_calls: 0, upload_calls: 0 }
    }

    fn binop(
        &mut self,
        a: &BufferHandle,
        b: &BufferHandle,
        result: &BufferHandle,
        size: usize,
        f: fn(f32, f32) -> f32,
    ) {
        let av = self.buffers[&a.id.0].clone();
        let bv = self.buffers[&b.id.0].clone();
        let mut out = Vec::with_capacity(size);
        for i in 0..size {
            out.push(f(f32::from_bits(av[i]), f32::from_bits(bv[i])).to_bits());
        }
        self.buffers.insert(result.id.0, out);
    }
}

impl Backend for HostBackend {
    // The three remaining trait items are specification-level: they describe
    // the backend's state and word function to the verifier and are never
    // executed.
    fn contents(&self) -> flamer::backend::BufferTableModel {
        panic!()
    }

    fn word_op(_op: flamer::backend::BinOp, _x: u32, _y: u32) -> u32 {
        panic!()
    }

    fn spec_name() -> flamer::backend::NameModel {
        panic!()
    }

    fn allocate_buffer(&mut self, lazy_buffer: LazyBufferHandle, size: usize) -> BufferHandle {
        if !self.buffers.contains_key(&lazy_buffer.0) {
            self.buffers.insert(lazy_buffer.0, vec![0u32; size]);
        }
        BufferHandle { id: lazy_buffer, size }
    }

    fn allocate_temporary_buffer(&mut self, data: &Vec<u32>, size: usize) -> BufferHandle {
        self.buffers.insert(usize::MAX, data.clone());
        BufferHandle { id: LazyBufferHandle(usize::MAX), size }
    }

    fn read_buffer(&self, handle: &BufferHandle) -> Vec<u32> {
        self.buffers[&handle.id.0].clone()
    }

    fn free_buffer(&mut self, handle: &BufferHandle) {
        self.buffers.remove(&handle.id.0);
    }

    fn drop(&mut self) {
        self.buffers.clear();
    }

    fn to_device(&mut self, data: &Vec<u32>, handle: &BufferHandle) {
        self.upload_calls += 1;
        self.buffers.insert(handle.id.0, data.clone());
    }

    fn to_host(&self, handle: &BufferHandle, _size: usize) -> Vec<u32> {
        self.buffers[&handle.id.0].clone()
    }

    fn add(&mut self, a: &BufferHandle, b: &BufferHandle, result: &BufferHandle, size: usize) {
        self.add_calls += 1;
        self.binop(a, b, result, size, |x, y| x + y);
    }

    fn subtract(&mut self, a: &BufferHandle, b: &BufferHandle, result: &BufferHandle, size: usize) {
        self.binop(a, b, result, size, |x, y| x - y);
    }

    fn multiply(&mut self, a: &BufferHandle, b: &BufferHandle, result: &BufferHandle, size: usize) {
        self.binop(a, b, result, size, |x, y| x * y);
    }

    fn divide(&mut self, a: &BufferHandle, b: &BufferHandle, result: &BufferHandle, size: usize) {
        self.binop(a, b, result, size, |x, y| if y == 0.0 { f32::NAN } else { x / y });
    }

    fn memset(&mut self, a: &BufferHandle, b: &BufferHandle, _size: usize) {
        let src = self.buffers[&b.id.0].clone();
        self.buffers.insert(a.id.0, src);
    }

    fn name(&self) -> String {
        "host".to_string()
    }
}

fn words(v: &[f32]) -> Vec<u32> {
    v.iter().map(|x| x.to_bits()).collect()
}

fn floats(v: &[u32]) -> Vec<f32> {
    v.iter().map(|x| f32::from_bits(*x)).collect()
}

#[test]
fn elementwise_add_on_host() {
    let mut engine = Engine::new();
    let mut backend = HostBackend::new();
    let a = Tensor::new(&mut engine, words(&[1.0, 2.0, 3.0]));
    let b = Tensor::new(&mut engine, words(&[4.0, 5.0, 6.0]));
    let c = a.add(&b, &mut engine);
    let v = c.realize_to_host(&mut engine, &mut backend).unwrap();
    assert_eq!(floats(&v), vec![5.0, 7.0, 9.0]);
}

#[test]
fn alias_safe_in_place_subtract() {
    let mut backend = HostBackend::new();
    let ha = backend.allocate_buffer(LazyBufferHandle(0), 3);
    let hb = backend.allocate_buffer(LazyBufferHandle(1), 3);
    backend.to_device(&words(&[10.0, 10.0, 10.0]), &ha);
    backend.to_device(&words(&[1.0, 2.0, 3.0]), &hb);
    backend.subtract(&ha.clone(), &hb, &ha, 3);
    assert_eq!(floats(&backend.read_buffer(&ha)), vec![9.0, 8.0, 7.0]);
}

#[test]
fn division_by_zero_yields_nan() {
    let mut engine = Engine::new();
    let mut backend = HostBackend::new();
    let a = Tensor::new(&mut engine, words(&[1.0, 2.0, 3.0]));
    let b = Tensor::new(&mut engine, words(&[1.0, 0.0, 2.0]));
    let c = a.div(&b, &mut engine);
    let v = floats(&c.realize_to_host(&mut engine, &mut backend).unwrap());
    assert_eq!(v[0], 1.0);
    assert!(v[1].is_nan());
    assert_eq!(v[2], 1.5);
}

#[test]
fn repeated_realize_issues_no_operations() {
    let mut engine = Engine::new();
    let mut backend = HostBackend::new();
    let a = Tensor::new(&mut engine, words(&[1.0, 2.0, 3.0]));
    let b = Tensor::new(&mut engine, words(&[4.0, 5.0, 6.0]));
    let c = a.add(&b, &mut engine);
    c.realize(&mut engine, &mut backend).unwrap();
    let adds = backend.add_calls;
    let uploads = backend.upload_calls;
    c.realize(&mut engine, &mut backend).unwrap();
    assert_eq!(backend.add_calls, adds);
    assert_eq!(backend.upload_calls, uploads);
    let v = c.buffer.get_data(&engine, &backend);
    assert_eq!(floats(&v), vec![5.0, 7.0, 9.0]);
}

#[test]
fn clear_forces_recomputation() {
    let mut engine = Engine::new();
    let mut backend = HostBackend::new();
    let a = Tensor::new(&mut engine, words(&[1.0, 2.0]));
    let b = Tensor::new(&mut engine, words(&[3.0, 4.0]));
    let c = a.add(&b, &mut engine);
    c.realize(&mut engine, &mut backend).unwrap();
    let adds = backend.add_calls;
    c.buffer.clear(&mut engine);
    c.realize(&mut engine, &mut backend).unwrap();
    assert_eq!(backend.add_calls, adds + 1);
}

#[test]
fn backward_of_subtraction_flows_signed_units() {
    let mut engine = Engine::new();
    let mut backend = HostBackend::new();
    let a = Tensor::new(&mut engine, words(&[5.0, 6.0]));
    let b = Tensor::new(&mut engine, words(&[1.0, 2.0]));
    let d = a.sub(&b, &mut engine);
    d.realize(&mut engine, &mut backend).unwrap();
    d.backward(&mut engine, &mut backend).unwrap();
    let ga = engine.tensors[a.id.0].gradient.unwrap();
    let gb = engine.tensors[b.id.0].gradient.unwrap();
    assert_eq!(floats(&ga.get_data(&engine, &backend)), vec![1.0, 1.0]);
    assert_eq!(floats(&gb.get_data(&engine, &backend)), vec![-1.0, -1.0]);
}

#[test]
fn backward_of_division_follows_the_quotient_rule() {
    let mut engine = Engine::new();
    let mut backend = HostBackend::new();
    let a = Tensor::new(&mut engine, words(&[1.0, 2.0, 3.0]));
    let b = Tensor::new(&mut engine, words(&[2.0, 4.0, 8.0]));
    let d = a.div(&b, &mut engine);
    d.realize(&mut engine, &mut backend).unwrap();
    d.backward(&mut engine, &mut backend).unwrap();
    let ga = engine.tensors[a.id.0].gradient.unwrap();
    let gb = engine.tensors[b.id.0].gradient.unwrap();
    assert_eq!(floats(&ga.get_data(&engine, &backend)), vec![0.5, 0.25, 0.125]);
    assert_eq!(floats(&gb.get_data(&engine, &backend)), vec![-0.25, -0.125, -0.046875]);
}

#[test]
fn accumulator_identity_is_stable_across_backward_passes() {
    let mut engine = Engine::new();
    let mut backend = HostBackend::new();
    let a = Tensor::new(&mut engine, words(&[1.0, 2.0]));
    let b = Tensor::new(&mut engine, words(&[3.0, 4.0]));
    let c = a.mul(&b, &mut engine);
    c.realize(&mut engine, &mut backend).unwrap();
    c.backward(&mut engine, &mut backend).unwrap();
    let ga1 = engine.tensors[a.id.0].gradient.unwrap();
    let gb1 = engine.tensors[b.id.0].gradient.unwrap();
    c.backward(&mut engine, &mut backend).unwrap();
    let ga2 = engine.tensors[a.id.0].gradient.unwrap();
    let gb2 = engine.tensors[b.id.0].gradient.unwrap();
    assert_eq!(ga1, ga2);
    assert_eq!(gb1, gb2);
    assert_eq!(floats(&ga2.get_data(&engine, &backend)), vec![3.0, 4.0]);
    assert_eq!(floats(&gb2.get_data(&engine, &backend)), vec![1.0, 2.0]);
}

#[test]
fn sgd_step_reduces_the_loss() {
    let mut engine = Engine::new();
    let mut backend = HostBackend::new();
    let a = Tensor::new(&mut engine, words(&[1.0, 2.0, 3.0]));
    let w = Tensor::new(&mut engine, words(&[0.5, 0.5, 0.5]));
    let target = Tensor::without_grad(&mut engine, words(&[2.0, 4.0, 6.0]));
    let predictions = a.mul(&w, &mut engine);
    let diff = target.sub(&predictions, &mut engine);
    let loss = diff.mul(&diff, &mut engine);
    loss.apply_backward(&mut engine, &mut backend, 0.1f32.to_bits()).unwrap();
    let new_w = floats(&w.buffer.get_data(&engine, &backend));
    let new_a = floats(&a.buffer.get_data(&engine, &backend));
    assert_ne!(new_w, vec![0.5, 0.5, 0.5]);
    let targets = [2.0f32, 4.0, 6.0];
    let mut new_loss = 0.0f32;
    for i in 0..3 {
        let d = targets[i] - new_a[i] * new_w[i];
        new_loss += d * d;
    }
    assert!(new_loss < 11.25, "loss after one step was {}", new_loss);
}

#[test]
fn memset_cycle_is_detected() {
    let mut engine = Engine::new();
    let mut backend = HostBackend::new();
    let t1 = Tensor::new(&mut engine, words(&[1.0, 2.0]));
    let t2 = Tensor::new(&mut engine, words(&[3.0, 4.0]));
    Tensor::prealloc_gradients(&mut engine, &mut backend);
    let g1 = engine.tensors[t1.id.0].gradient.unwrap();
    let g2 = engine.tensors[t2.id.0].gradient.unwrap();
    LazyBuffer::from_tensor_op(&mut engine, t1.id, LazyOp::Memset(g1, g2));
    LazyBuffer::from_tensor_op(&mut engine, t2.id, LazyOp::Memset(g2, g1));
    let r = g1.realize(&mut engine, &mut backend);
    assert!(matches!(r, Err(RealizeError::Cycle)));
}

#[test]
fn buffer_pool_reuses_matching_sizes() {
    let mut pool = BufferPool::new();
    let mut backend = HostBackend::new();
    begin_training_loop(&mut pool, &backend);
    let name = backend.name();
    let rented = BufferHandle { id: LazyBufferHandle(7), size: 3 };
    return_buffer_to_cache(&mut pool, &name, rented);
    let got = get_cached_buffer(&mut pool, &mut backend, LazyBufferHandle(9), 3);
    assert_eq!(got, rented);
    let fresh = get_cached_buffer(&mut pool, &mut backend, LazyBufferHandle(9), 3);
    assert_eq!(fresh.id, LazyBufferHandle(9));
    assert_eq!(fresh.size, 3);
    end_training_loop(&mut pool, &name);
    let ignored = BufferHandle { id: LazyBufferHandle(8), size: 3 };
    return_buffer_to_cache(&mut pool, &name, ignored);
    let after_end = get_cached_buffer(&mut pool, &mut backend, LazyBufferHandle(11), 3);
    assert_eq!(after_end.id, LazyBufferHandle(11));
    free_all_cached_buffers(&mut pool, &mut backend);
}
