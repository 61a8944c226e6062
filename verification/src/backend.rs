//! The pluggable compute-backend capability: buffer lifecycle, host/device
//! transfer, and the four element-wise binary operations over opaque buffer
//! handles.
//!
//! Buffers hold flat arrays of 32-bit words; the real backends interpret the
//! words as IEEE-754 single-precision floats.  A backend's state is modelled
//! by [`Backend::contents`], a map from buffer identity to stored words, and
//! its arithmetic by the abstract word function [`Backend::word_op`].  The
//! engine is verified against these contracts; concrete backends (an
//! in-process host table, a GPU compute device) implement the trait outside
//! the verified library and are trusted to meet them.

use crate::handle::{BufferHandle, LazyBufferHandle, LAZYBUFFER_HANDLE_NULL_ID};
use vstd::prelude::*;

verus! {

/// The model of a backend's buffer table, as backend implementations outside
/// the library name it: buffer identity to stored words.
pub type BufferTableModel = Map<int, Seq<u32>>;

/// The model of a backend's name, as implementations outside the library name
/// it.
pub type NameModel = Seq<char>;

/// The four element-wise binary operations every backend provides.
#[derive(Debug, Copy, Clone, PartialEq, Eq, Structural)]
pub enum BinOp {
    Add,
    Subtract,
    Multiply,
    Divide,
}

/// An all-zero word sequence of the given length.
pub open spec fn zero_words(size: nat) -> Seq<u32> {
    Seq::new(size, |i: int| 0u32)
}

/// The element-wise image of a binary operation: entry `i` combines the
/// operands' words at `i` under the backend's word function.  The image is a
/// function of the pre-state alone, which is what makes the operations safe
/// to run with a destination that aliases an operand.
pub open spec fn bin_image<B: Backend>(
    op: BinOp,
    m: Map<int, Seq<u32>>,
    a: int,
    b: int,
    size: nat,
) -> Seq<u32> {
    Seq::new(size, |i: int| B::word_op(op, m[a][i], m[b][i]))
}

/// The operands an operation must find in a backend's contents: present, and
/// of the operation's element count.
pub open spec fn buffer_ready(m: Map<int, Seq<u32>>, h: BufferHandle, size: usize) -> bool {
    m.dom().contains(h.id.0 as int) && m[h.id.0 as int].len() == size
}

/// A compute backend.  Implementations live outside the verified library;
/// every contract below is an obligation on them, and everything the engine
/// proves holds only of implementations that meet these contracts.
pub trait Backend: Sized {
    /// Model of the backend's buffer table: buffer identity to stored words.
    spec fn contents(&self) -> Map<int, Seq<u32>>;

    /// The backend's element-wise word function for the four binary
    /// operations.  It is deliberately abstract: each backend computes its
    /// own (the real ones apply IEEE-754 float arithmetic to the words), and
    /// no two backends are promised to agree.
    spec fn word_op(op: BinOp, x: u32, y: u32) -> u32;

    /// The backend's name, used as a cache key by the training helper.
    spec fn spec_name() -> Seq<char>;

    /// Allocate the buffer for a lazy-buffer identity: idempotent on the
    /// identity, zero-filled on first allocation.  The size may not disagree
    /// with the buffer already held for that identity.
    fn allocate_buffer(&mut self, lazy_buffer: LazyBufferHandle, size: usize) -> (h: BufferHandle)
        requires
            old(self).contents().dom().contains(lazy_buffer.0 as int) ==> old(
                self,
            ).contents()[lazy_buffer.0 as int].len() == size,
        ensures
            h.id == lazy_buffer,
            h.size == size,
            old(self).contents().dom().contains(lazy_buffer.0 as int) ==> final (self).contents()
                == old(self).contents(),
            !old(self).contents().dom().contains(lazy_buffer.0 as int) ==> final (self).contents()
                == old(self).contents().insert(lazy_buffer.0 as int, zero_words(size as nat)),
    ;

    /// Allocate an untracked, caller-owned buffer holding the given data.  It
    /// is keyed under the null identity, never under a lazy-buffer identity.
    fn allocate_temporary_buffer(&mut self, data: &Vec<u32>, size: usize) -> (h: BufferHandle)
        requires
            data@.len() == size,
        ensures
            h.id.0 == LAZYBUFFER_HANDLE_NULL_ID,
            h.size == size,
            final (self).contents() == old(self).contents().insert(
                LAZYBUFFER_HANDLE_NULL_ID as int,
                data@,
            ),
    ;

    /// Download a buffer using the handle's recorded size.
    fn read_buffer(&self, handle: &BufferHandle) -> (r: Vec<u32>)
        requires
            buffer_ready(self.contents(), *handle, handle.size),
        ensures
            r@ == self.contents()[handle.id.0 as int],
    ;

    /// Release the device resources of a buffer.
    fn free_buffer(&mut self, handle: &BufferHandle)
        ensures
            final (self).contents() == old(self).contents().remove(handle.id.0 as int),
    ;

    /// Release every buffer the backend holds.
    fn drop(&mut self)
        ensures
            final (self).contents() == Map::<int, Seq<u32>>::empty(),
    ;

    /// Host-to-device copy of exactly the buffer's element count, starting at
    /// offset zero.
    fn to_device(&mut self, data: &Vec<u32>, handle: &BufferHandle)
        requires
            buffer_ready(old(self).contents(), *handle, handle.size),
            data@.len() == handle.size,
        ensures
            final (self).contents() == old(self).contents().insert(handle.id.0 as int, data@),
    ;

    /// Device-to-host copy of the whole buffer.
    fn to_host(&self, handle: &BufferHandle, size: usize) -> (r: Vec<u32>)
        requires
            buffer_ready(self.contents(), *handle, size),
        ensures
            r@ == self.contents()[handle.id.0 as int],
    ;

    /// Element-wise addition into the result buffer; the result handle may
    /// alias an operand.
    fn add(&mut self, a: &BufferHandle, b: &BufferHandle, result: &BufferHandle, size: usize)
        requires
            buffer_ready(old(self).contents(), *a, size),
            buffer_ready(old(self).contents(), *b, size),
            buffer_ready(old(self).contents(), *result, size),
        ensures
            final (self).contents() == old(self).contents().insert(
                result.id.0 as int,
                Seq::new(
                    size as nat,
                    (|i: int| Self::word_op(
                        BinOp::Add,
                        old(self).contents()[a.id.0 as int][i],
                        old(self).contents()[b.id.0 as int][i],
                    )),
                ),
            ),
    ;

    /// Element-wise subtraction; alias rules as for `add`.
    fn subtract(&mut self, a: &BufferHandle, b: &BufferHandle, result: &BufferHandle, size: usize)
        requires
            buffer_ready(old(self).contents(), *a, size),
            buffer_ready(old(self).contents(), *b, size),
            buffer_ready(old(self).contents(), *result, size),
        ensures
            final (self).contents() == old(self).contents().insert(
                result.id.0 as int,
                Seq::new(
                    size as nat,
                    (|i: int| Self::word_op(
                        BinOp::Subtract,
                        old(self).contents()[a.id.0 as int][i],
                        old(self).contents()[b.id.0 as int][i],
                    )),
                ),
            ),
    ;

    /// Element-wise multiplication; alias rules as for `add`.
    fn multiply(&mut self, a: &BufferHandle, b: &BufferHandle, result: &BufferHandle, size: usize)
        requires
            buffer_ready(old(self).contents(), *a, size),
            buffer_ready(old(self).contents(), *b, size),
            buffer_ready(old(self).contents(), *result, size),
        ensures
            final (self).contents() == old(self).contents().insert(
                result.id.0 as int,
                Seq::new(
                    size as nat,
                    (|i: int| Self::word_op(
                        BinOp::Multiply,
                        old(self).contents()[a.id.0 as int][i],
                        old(self).contents()[b.id.0 as int][i],
                    )),
                ),
            ),
    ;

    /// Element-wise division; alias rules as for `add`.  On words whose float
    /// interpretation divides by zero, the real backends store a NaN word,
    /// which is one more value of the abstract word function.
    fn divide(&mut self, a: &BufferHandle, b: &BufferHandle, result: &BufferHandle, size: usize)
        requires
            buffer_ready(old(self).contents(), *a, size),
            buffer_ready(old(self).contents(), *b, size),
            buffer_ready(old(self).contents(), *result, size),
        ensures
            final (self).contents() == old(self).contents().insert(
                result.id.0 as int,
                Seq::new(
                    size as nat,
                    (|i: int| Self::word_op(
                        BinOp::Divide,
                        old(self).contents()[a.id.0 as int][i],
                        old(self).contents()[b.id.0 as int][i],
                    )),
                ),
            ),
    ;

    /// Element-wise copy: the destination's contents become the source's
    /// values.  Aliasing is permitted.
    fn memset(&mut self, a: &BufferHandle, b: &BufferHandle, size: usize)
        requires
            buffer_ready(old(self).contents(), *a, size),
            buffer_ready(old(self).contents(), *b, size),
        ensures
            final (self).contents() == old(self).contents().insert(
                a.id.0 as int,
                old(self).contents()[b.id.0 as int],
            ),
    ;

    /// The backend's short human-readable name.
    fn name(&self) -> (r: String)
        ensures
            r@ == Self::spec_name(),
    ;
}

/// Law: the four binary operations are alias-safe.  The words an operation
/// stores are computed from the backend's state before the call, so issuing
/// it with the result handle equal to an operand handle stores exactly the
/// words that a fresh, non-aliased result buffer would receive.
pub proof fn lemma_binary_op_alias_safe<B: Backend>(
    op: BinOp,
    m: Map<int, Seq<u32>>,
    a: int,
    b: int,
    other: int,
    size: nat,
)
    ensures
        m.insert(a, bin_image::<B>(op, m, a, b, size))[a] == m.insert(
            other,
            bin_image::<B>(op, m, a, b, size),
        )[other],
{
}

} // verus!
