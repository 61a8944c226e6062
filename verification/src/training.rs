//! The training helper: a per-backend pool of free device buffers, keyed by
//! the backend's name, so training loops can rent buffers of a recurring size
//! instead of allocating fresh ones each pass.

use crate::backend::Backend;
use crate::handle::{BufferHandle, LazyBufferHandle};
use vstd::prelude::*;

verus! {

/// The pool state of one backend: whether a training loop is active, and the
/// free handles returned to the pool.
pub struct PoolEntry {
    pub name: String,
    pub active: bool,
    pub free: Vec<BufferHandle>,
}

/// The buffer pool, one entry per backend name.
pub struct BufferPool {
    pub entries: Vec<PoolEntry>,
}

impl BufferPool {
    /// A fresh, empty pool.
    pub fn new() -> (p: BufferPool)
        ensures
            p.wf(),
            p.entries@.len() == 0,
    {
        BufferPool { entries: Vec::new() }
    }

    /// Pool well-formedness: one entry per backend name.
    pub open spec fn wf(self) -> bool {
        forall|j: int, k: int|
            0 <= j < k < self.entries@.len() ==> (#[trigger] self.entries@[j]).name@ != (
            #[trigger] self.entries@[k]).name@
    }
}

/// Look a backend name up in the pool.
fn find_entry(pool: &BufferPool, name: &String) -> (r: Option<usize>)
    requires
        pool.wf(),
    ensures
        match r {
            Some(j) => j < pool.entries@.len() && pool.entries@[j as int].name@ == name@,
            None => forall|j: int|
                0 <= j < pool.entries@.len() ==> (#[trigger] pool.entries@[j]).name@ != name@,
        },
{
    let mut j: usize = 0;
    while j < pool.entries.len()
        invariant
            j <= pool.entries@.len(),
            forall|k: int| 0 <= k < j ==> (#[trigger] pool.entries@[k]).name@ != name@,
        decreases pool.entries@.len() - j,
    {
        if pool.entries[j].name == *name {
            return Some(j);
        }
        j = j + 1;
    }
    None
}

/// Begin a training loop on a backend: mark its pool entry active, creating
/// an empty one if the backend has none yet.  Buffers already pooled are
/// kept.
pub fn begin_training_loop<B: Backend>(pool: &mut BufferPool, backend: &B)
    requires
        old(pool).wf(),
    ensures
        final (pool).wf(),
        exists|j: int|
            0 <= j < final (pool).entries@.len() && (#[trigger] final (pool).entries@[j]).name@
                == B::spec_name() && final (pool).entries@[j].active,
        forall|j: int|
            0 <= j < old(pool).entries@.len() && (#[trigger] old(pool).entries@[j]).name@
                != B::spec_name() ==> final (pool).entries@[j] == old(pool).entries@[j],
        forall|j: int|
            0 <= j < old(pool).entries@.len() && (#[trigger] old(pool).entries@[j]).name@
                == B::spec_name() ==> final (pool).entries@[j].free@ == old(pool).entries@[j].free@ && final (pool).entries@[j].name@ == old(pool).entries@[j].name@,
        forall|j: int|
            old(pool).entries@.len() <= j < final (pool).entries@.len() ==> (#[trigger] final (pool).entries@[j]).free@.len() == 0,
{
    let name = backend.name();
    let found = find_entry(pool, &name);
    match found {
        Some(j) => {
            let entry_ref = &mut pool.entries[j];
            entry_ref.active = true;
            proof {
                assert(final (pool).entries@[j as int].name@ == B::spec_name());
                assert forall|a: int, b: int|
                    0 <= a < b < pool.entries@.len() implies (#[trigger] pool.entries@[a]).name@
                    != (#[trigger] pool.entries@[b]).name@ by {
                    assert(old(pool).entries@[a].name@ != old(pool).entries@[b].name@);
                }
            }
        },
        None => {
            pool.entries.push(PoolEntry { name, active: true, free: Vec::new() });
            proof {
                assert(pool.entries@.last().name@ == B::spec_name());
                assert forall|a: int, b: int|
                    0 <= a < b < pool.entries@.len() implies (#[trigger] pool.entries@[a]).name@
                    != (#[trigger] pool.entries@[b]).name@ by {
                    if b < old(pool).entries@.len() {
                        assert(old(pool).entries@[a].name@ != old(pool).entries@[b].name@);
                    }
                }
            }
        },
    }
}

/// End a training loop on a backend: mark its entry inactive.  The pooled
/// buffers are kept for a future session.
pub fn end_training_loop(pool: &mut BufferPool, backend_name: &String)
    requires
        old(pool).wf(),
    ensures
        final (pool).wf(),
        forall|j: int|
            0 <= j < old(pool).entries@.len() && (#[trigger] old(pool).entries@[j]).name@
                != backend_name@ ==> final (pool).entries@[j] == old(pool).entries@[j],
        forall|j: int|
            0 <= j < final (pool).entries@.len() && (#[trigger] final (pool).entries@[j]).name@
                == backend_name@ ==> !final (pool).entries@[j].active,
        final (pool).entries@.len() == old(pool).entries@.len(),
        forall|j: int|
            0 <= j < old(pool).entries@.len() ==> (#[trigger] final (pool).entries@[j]).free@
                == old(pool).entries@[j].free@ && final (pool).entries@[j].name@ == old(pool).entries@[j].name@,
{
    let found = find_entry(pool, backend_name);
    match found {
        Some(j) => {
            let entry_ref = &mut pool.entries[j];
            entry_ref.active = false;
            proof {
                assert forall|a: int, b: int|
                    0 <= a < b < pool.entries@.len() implies (#[trigger] pool.entries@[a]).name@
                    != (#[trigger] pool.entries@[b]).name@ by {
                    assert(old(pool).entries@[a].name@ != old(pool).entries@[b].name@);
                }
                assert forall|k: int|
                    0 <= k < pool.entries@.len() && (#[trigger] pool.entries@[k]).name@
                        == backend_name@ implies !pool.entries@[k].active by {
                    if k != j {
                        assert(old(pool).entries@[k].name@ != old(pool).entries@[j as int].name@);
                    }
                }
            }
        },
        None => {},
    }
}

/// Some active pool entry of this name holds a free handle of this size.
pub open spec fn pool_rent_hit(pool: BufferPool, name: Seq<char>, size: usize) -> bool {
    exists|j: int|
        #![trigger pool.entries@[j]]
        0 <= j < pool.entries@.len() && pool.entries@[j].name@ == name && pool.entries@[j].active
            && exists|k: int|
            0 <= k < pool.entries@[j].free@.len() && (#[trigger] pool.entries@[j].free@[k]).size
                == size
}

/// Rent a buffer.  While a training loop is active on the backend and its
/// pool holds a handle of the requested size, the first such handle leaves
/// the pool and is returned, and the backend is not touched; otherwise the
/// pool is unchanged and a fresh buffer is allocated under the given
/// lazy-buffer identity.
pub fn get_cached_buffer<B: Backend>(
    pool: &mut BufferPool,
    backend: &mut B,
    lazy_buffer: LazyBufferHandle,
    size: usize,
) -> (r: BufferHandle)
    requires
        old(pool).wf(),
        old(backend).contents().dom().contains(lazy_buffer.0 as int) ==> old(backend).contents()[lazy_buffer.0 as int].len() == size,
    ensures
        final (pool).wf(),
        r.size == size,
        pool_rent_hit(*old(pool), B::spec_name(), size) ==> {
            &&& final (backend).contents() == old(backend).contents()
            &&& final (pool).entries@.len() == old(pool).entries@.len()
            &&& exists|j: int, k: int|
                #![trigger old(pool).entries@[j].free@[k]]
                {
                    &&& 0 <= j < old(pool).entries@.len()
                    &&& old(pool).entries@[j].name@ == B::spec_name()
                    &&& old(pool).entries@[j].active
                    &&& 0 <= k < old(pool).entries@[j].free@.len()
                    &&& old(pool).entries@[j].free@[k] == r
                    &&& (forall|k2: int|
                        0 <= k2 < k ==> (#[trigger] old(pool).entries@[j].free@[k2]).size != size)
                    &&& final (pool).entries@[j].free@ == old(pool).entries@[j].free@.remove(k)
                    &&& final (pool).entries@[j].name@ == old(pool).entries@[j].name@
                    &&& final (pool).entries@[j].active == old(pool).entries@[j].active
                    &&& (forall|j2: int|
                        0 <= j2 < old(pool).entries@.len() && j2 != j ==> final (pool).entries@[j2] == old(pool).entries@[j2])
                }
        },
        !pool_rent_hit(*old(pool), B::spec_name(), size) ==> {
            &&& final (pool).entries@ == old(pool).entries@
            &&& r.id == lazy_buffer
            &&& (old(backend).contents().dom().contains(lazy_buffer.0 as int) ==> final (backend).contents() == old(backend).contents())
            &&& (!old(backend).contents().dom().contains(lazy_buffer.0 as int) ==> final (backend).contents() == old(backend).contents().insert(
                lazy_buffer.0 as int,
                crate::backend::zero_words(size as nat),
            ))
        },
{
    let name = backend.name();
    let found = find_entry(pool, &name);
    if let Some(j) = found {
        if pool.entries[j].active {
            let mut pos: usize = 0;
            let free_len = pool.entries[j].free.len();
            while pos < free_len
                invariant
                    pool.wf(),
                    j < pool.entries@.len(),
                    pool.entries@[j as int].name@ == B::spec_name(),
                    pool.entries@[j as int].active,
                    free_len == pool.entries@[j as int].free@.len(),
                    pos <= free_len,
                    *pool == *old(pool),
                    forall|k2: int|
                        0 <= k2 < pos ==> (#[trigger] pool.entries@[j as int].free@[k2]).size
                            != size,
                decreases free_len - pos,
            {
                if pool.entries[j].free[pos].size == size {
                    let entry_ref = &mut pool.entries[j];
                    let h = entry_ref.free.remove(pos);
                    proof {
                        assert forall|a: int, b: int|
                            0 <= a < b < pool.entries@.len() implies (
                        #[trigger] pool.entries@[a]).name@ != (
                        #[trigger] pool.entries@[b]).name@ by {
                            assert(old(pool).entries@[a].name@ != old(pool).entries@[b].name@);
                        }
                        assert(old(pool).entries@[j as int].free@[pos as int] == h);
                        assert(pool_rent_hit(*old(pool), B::spec_name(), size));
                    }
                    return h;
                }
                pos = pos + 1;
            }
            proof {
                lemma_no_rent_hit(*old(pool), j as int, size);
            }
        } else {
            proof {
                lemma_no_rent_hit_inactive(*old(pool), j as int, size);
            }
        }
    } else {
        proof {
            assert(!pool_rent_hit(*old(pool), B::spec_name(), size)) by {
                if pool_rent_hit(*old(pool), B::spec_name(), size) {
                    let jj = choose|jj: int|
                        #![trigger old(pool).entries@[jj]]
                        0 <= jj < old(pool).entries@.len() && old(pool).entries@[jj].name@
                            == B::spec_name() && old(pool).entries@[jj].active && exists|k: int|
                            0 <= k < old(pool).entries@[jj].free@.len() && (#[trigger] old(pool).entries@[jj].free@[k]).size == size;
                    assert(old(pool).entries@[jj].name@ != B::spec_name());
                }
            }
        }
    }
    backend.allocate_buffer(lazy_buffer, size)
}

/// The entry of this name is active but holds no handle of the size: no hit.
proof fn lemma_no_rent_hit(pool: BufferPool, j: int, size: usize)
    requires
        pool.wf(),
        0 <= j < pool.entries@.len(),
        forall|k2: int|
            0 <= k2 < pool.entries@[j].free@.len() ==> (#[trigger] pool.entries@[j].free@[k2]).size
                != size,
    ensures
        !pool_rent_hit(pool, pool.entries@[j].name@, size),
{
    if pool_rent_hit(pool, pool.entries@[j].name@, size) {
        let jj = choose|jj: int|
            #![trigger pool.entries@[jj]]
            0 <= jj < pool.entries@.len() && pool.entries@[jj].name@ == pool.entries@[j].name@
                && pool.entries@[jj].active && exists|k: int|
                0 <= k < pool.entries@[jj].free@.len() && (#[trigger] pool.entries@[jj].free@[k]).size
                    == size;
        if jj != j {
            assert(pool.entries@[if jj < j {
                jj
            } else {
                j
            }].name@ != pool.entries@[if jj < j {
                j
            } else {
                jj
            }].name@);
        }
        let k = choose|k: int|
            0 <= k < pool.entries@[jj].free@.len() && (#[trigger] pool.entries@[jj].free@[k]).size
                == size;
        assert(pool.entries@[j].free@[k].size != size);
    }
}

/// The entry of this name is inactive: no hit.
proof fn lemma_no_rent_hit_inactive(pool: BufferPool, j: int, size: usize)
    requires
        pool.wf(),
        0 <= j < pool.entries@.len(),
        !pool.entries@[j].active,
    ensures
        !pool_rent_hit(pool, pool.entries@[j].name@, size),
{
    if pool_rent_hit(pool, pool.entries@[j].name@, size) {
        let jj = choose|jj: int|
            #![trigger pool.entries@[jj]]
            0 <= jj < pool.entries@.len() && pool.entries@[jj].name@ == pool.entries@[j].name@
                && pool.entries@[jj].active && exists|k: int|
                0 <= k < pool.entries@[jj].free@.len() && (#[trigger] pool.entries@[jj].free@[k]).size
                    == size;
        if jj != j {
            assert(pool.entries@[if jj < j {
                jj
            } else {
                j
            }].name@ != pool.entries@[if jj < j {
                j
            } else {
                jj
            }].name@);
        }
    }
}

/// Return a buffer to the pool; it is kept only while a training loop is
/// active on the backend.
pub fn return_buffer_to_cache(pool: &mut BufferPool, backend_name: &String, handle: BufferHandle)
    requires
        old(pool).wf(),
    ensures
        final (pool).wf(),
        forall|j: int|
            0 <= j < old(pool).entries@.len() && ((#[trigger] old(pool).entries@[j]).name@
                != backend_name@ || !old(pool).entries@[j].active) ==> final (pool).entries@[j]
                == old(pool).entries@[j],
        final (pool).entries@.len() == old(pool).entries@.len(),
        forall|j: int|
            0 <= j < old(pool).entries@.len() && (#[trigger] old(pool).entries@[j]).name@
                == backend_name@ && old(pool).entries@[j].active ==> final (pool).entries@[j].free@
                == old(pool).entries@[j].free@.push(handle),
{
    let found = find_entry(pool, backend_name);
    if let Some(j) = found {
        if pool.entries[j].active {
            let entry_ref = &mut pool.entries[j];
            entry_ref.free.push(handle);
            proof {
                assert forall|a: int, b: int|
                    0 <= a < b < pool.entries@.len() implies (#[trigger] pool.entries@[a]).name@
                    != (#[trigger] pool.entries@[b]).name@ by {
                    assert(old(pool).entries@[a].name@ != old(pool).entries@[b].name@);
                }
                assert forall|k: int|
                    0 <= k < old(pool).entries@.len() && (#[trigger] old(pool).entries@[k]).name@
                        == backend_name@ && old(pool).entries@[k].active
                    implies pool.entries@[k].free@ == old(pool).entries@[k].free@.push(handle) by {
                    if k != j {
                        assert(old(pool).entries@[k].name@ != old(pool).entries@[j as int].name@);
                    }
                }
            }
        }
    }
}

/// Some handle in the free list carries this buffer identity.
pub open spec fn free_list_holds_id(free: Seq<BufferHandle>, id: int) -> bool {
    exists|k: int| 0 <= k < free.len() && (#[trigger] free[k]).id.0 == id
}

/// Release every pooled buffer of a backend back to it: the backend's table
/// loses exactly the pooled identities of that backend's entry, the entry's
/// free list ends empty (its name and activity kept), and every other entry
/// is untouched.  A backend without an entry sees no change at all.
pub fn free_all_cached_buffers<B: Backend>(pool: &mut BufferPool, backend: &mut B)
    requires
        old(pool).wf(),
    ensures
        final (pool).wf(),
        final (pool).entries@.len() == old(pool).entries@.len(),
        forall|j: int|
            0 <= j < old(pool).entries@.len() && (#[trigger] old(pool).entries@[j]).name@
                != B::spec_name() ==> final (pool).entries@[j] == old(pool).entries@[j],
        forall|j: int|
            0 <= j < old(pool).entries@.len() && (#[trigger] old(pool).entries@[j]).name@
                == B::spec_name() ==> {
                &&& final (pool).entries@[j].free@.len() == 0
                &&& final (pool).entries@[j].name@ == old(pool).entries@[j].name@
                &&& final (pool).entries@[j].active == old(pool).entries@[j].active
                &&& (forall|id: int|
                    #[trigger] final (backend).contents().dom().contains(id) <==> (old(backend).contents().dom().contains(id) && !free_list_holds_id(
                        old(pool).entries@[j].free@,
                        id,
                    )))
                &&& (forall|id: int|
                    #[trigger] final (backend).contents().dom().contains(id) ==> final (backend).contents()[id] == old(backend).contents()[id])
            },
        (forall|j: int|
            0 <= j < old(pool).entries@.len() ==> (#[trigger] old(pool).entries@[j]).name@
                != B::spec_name()) ==> final (backend).contents() == old(backend).contents()
            && final (pool).entries@ == old(pool).entries@,
{
    let name = backend.name();
    let found = find_entry(pool, &name);
    if let Some(j) = found {
        let ghost free0 = pool.entries@[j as int].free@;
        let mut remaining = pool.entries[j].free.len();
        while remaining > 0
            invariant
                pool.wf(),
                j < pool.entries@.len(),
                pool.entries@[j as int].name@ == B::spec_name(),
                remaining == pool.entries@[j as int].free@.len(),
                pool.entries@.len() == old(pool).entries@.len(),
                forall|k: int|
                    0 <= k < old(pool).entries@.len() && k != j ==> pool.entries@[k] == old(pool).entries@[k],
                pool.entries@[j as int].name@ == old(pool).entries@[j as int].name@,
                pool.entries@[j as int].active == old(pool).entries@[j as int].active,
                free0 == old(pool).entries@[j as int].free@,
                remaining <= free0.len(),
                pool.entries@[j as int].free@ == free0.take(remaining as int),
                forall|id: int|
                    #[trigger] backend.contents().dom().contains(id) <==> (old(backend).contents().dom().contains(id) && !free_list_holds_id(
                        free0.skip(remaining as int),
                        id,
                    )),
                forall|id: int|
                    #[trigger] backend.contents().dom().contains(id) ==> backend.contents()[id]
                        == old(backend).contents()[id],
            decreases remaining,
        {
            let ghost m_pre = backend.contents();
            let ghost rem0 = remaining as int;
            let entry_ref = &mut pool.entries[j];
            let h = entry_ref.free.pop().unwrap();
            proof {
                assert(h == free0[rem0 - 1]);
                assert(pool.entries@[j as int].free@ =~= free0.take(rem0 - 1));
                assert forall|a: int, b: int|
                    0 <= a < b < pool.entries@.len() implies (#[trigger] pool.entries@[a]).name@
                    != (#[trigger] pool.entries@[b]).name@ by {
                    assert(old(pool).entries@[a].name@ != old(pool).entries@[b].name@);
                }
            }
            backend.free_buffer(&h);
            proof {
                assert forall|id: int|
                    #[trigger] backend.contents().dom().contains(id) <==> (old(backend).contents().dom().contains(id) && !free_list_holds_id(
                        free0.skip(rem0 - 1),
                        id,
                    )) by {
                    if id != h.id.0 as int {
                        assert(backend.contents().dom().contains(id) <==> m_pre.dom().contains(
                            id,
                        ));
                        if free_list_holds_id(free0.skip(rem0 - 1), id) {
                            let k = choose|k: int|
                                0 <= k < free0.skip(rem0 - 1).len() && (#[trigger] free0.skip(
                                    rem0 - 1,
                                )[k]).id.0 == id;
                            if k == 0 {
                                assert(free0.skip(rem0 - 1)[0] == h);
                            } else {
                                assert(free0.skip(rem0 - 1)[k] == free0.skip(rem0)[k - 1]);
                                assert(free_list_holds_id(free0.skip(rem0), id));
                            }
                        } else {
                            if free_list_holds_id(free0.skip(rem0), id) {
                                let k = choose|k: int|
                                    0 <= k < free0.skip(rem0).len() && (#[trigger] free0.skip(
                                        rem0,
                                    )[k]).id.0 == id;
                                assert(free0.skip(rem0 - 1)[k + 1] == free0.skip(rem0)[k]);
                                assert(free_list_holds_id(free0.skip(rem0 - 1), id));
                            }
                        }
                    } else {
                        assert(free0.skip(rem0 - 1)[0] == h);
                        assert(free_list_holds_id(free0.skip(rem0 - 1), id));
                    }
                }
            }
            remaining = remaining - 1;
        }
        proof {
            assert(free0.skip(0) =~= free0);
            assert forall|jj: int|
                0 <= jj < old(pool).entries@.len() && (#[trigger] old(pool).entries@[jj]).name@
                    == B::spec_name() implies jj == j as int by {
                if jj != j as int {
                    assert(old(pool).entries@[if jj < j as int {
                        jj
                    } else {
                        j as int
                    }].name@ != old(pool).entries@[if jj < j as int {
                        j as int
                    } else {
                        jj
                    }].name@);
                }
            }
        }
    }
}

} // verus!
