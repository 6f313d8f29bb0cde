use vstd::prelude::*;

use crate::shape::{
    align4, align_up4, check_shape, check_stride_shape, stride_shape_of, stride_shape_ok, lemma_align4, lemma_align4_up, shape_of, shape_ok, BufferShape, PROTOCOL_MAX,
};
use crate::table::{
    appended, blocked, claimed, dropped, end, frontier, grow_len, has_key, lemma_dropped_prefix,
    lemma_dropped_step, lemma_ends_below_frontier, lemma_position, lemma_position_unique, lemma_relayout_shape,
    lemma_relayout_step, ordered, aligned, padded, position, relocated, relayout, table_after, unique_keys,
    within, in_use, released, handles_fresh, lemma_handles_kept, removed, removed_handles, compact, compact_dropped, Allocation,
};

verus! {

/// Why a buffer could not be handed out.
#[derive(Clone, Copy, Debug, PartialEq, Eq, Structural)]
pub enum BufferAccessError {
    /// The buffer is being used by the compositor.
    InUse,
    /// No buffer is associated with the key.
    InvalidKey,
    /// The requested geometry is out of range or overflows.
    InvalidShape,
    /// The shared region cannot grow as far as the request needs.
    OutOfMemory,
}

/// A buffer handed to the local writer.
#[derive(Debug)]
pub struct BufferSlot {
    /// Start of the buffer in the shared region.
    pub offset: usize,
    /// Bytes of the buffer, `stride * height`.
    pub size: usize,
    /// Geometry and format of the handle.
    pub shape: BufferShape,
    /// Identity of the remote handle bound to the buffer.
    pub handle: u64,
    /// The handle is new: the remote buffer object has to be created for it.
    pub created: bool,
    /// Handles invalidated by this call: their remote objects have to be destroyed.
    pub retired: Vec<u64>,
}

/// What a request for a buffer comes to.
#[derive(Debug)]
pub enum CreateOutcome {
    /// The buffer is claimed and ready to be written.
    Ready(BufferSlot),
    /// The shared region has to grow to this many bytes first; nothing changed.
    Grow(usize),
}

/// What reshaping a buffer comes to.
#[derive(Debug)]
pub enum ResizeOutcome {
    /// The allocation has its new shape; these handles were invalidated and
    /// their remote objects have to be destroyed.
    Done(Vec<u64>),
    /// The shared region has to grow to this many bytes first; nothing changed.
    Grow(usize),
}

/// The abstract state of a pool.
pub struct PoolView {
    /// The allocation table, in offset order.
    pub list: Seq<Allocation>,
    /// Committed length of the shared region in bytes.
    pub len: int,
    /// Identity the next new handle receives.
    pub next_handle: int,
}

/// The invariants every pool keeps between calls.
pub open spec fn pool_wf(v: PoolView) -> bool {
    &&& ordered(v.list)
    &&& aligned(v.list)
    &&& unique_keys(v.list)
    &&& within(v.list, v.len)
    &&& forall|k: int| 0 <= k < v.list.len() ==> #[trigger] v.list[k].used <= v.list[k].size
    &&& forall|k: int| 0 <= k < v.list.len() ==> #[trigger] v.list[k].used == v.list[k].shape.size()
    &&& handles_fresh(v.list, v.next_handle)
    &&& 0 <= v.len <= PROTOCOL_MAX
    &&& 0 <= v.next_handle <= u64::MAX
}

/// The pool once a request for `key` with shape `sh` succeeded: the table laid
/// out and the allocation claimed, bound to a fresh handle if it had none.
pub open spec fn committed(v: PoolView, key: u64, sh: BufferShape) -> PoolView {
    let t = table_after(v.list, key, sh);
    let p = position(t, key);
    PoolView {
        list: t.update(p, claimed(t[p], v.next_handle as u64)),
        len: v.len,
        next_handle: if t[p].buffer is None { v.next_handle + 1 } else { v.next_handle },
    }
}

/// A successful request for `key` with shape `sh` would run out of handle identities.
pub open spec fn handles_exhausted(v: PoolView, key: u64, sh: BufferShape) -> bool {
    let t = table_after(v.list, key, sh);
    t[position(t, key)].buffer is None && v.next_handle == u64::MAX
}

/// This pool manages buffers associated with keys.
/// Only one buffer can be attributed to a given key.
pub struct MultiPool {
    buffer_list: Vec<Allocation>,
    len: u64,
    next_handle: u64,
}

impl View for MultiPool {
    type V = PoolView;

    closed spec fn view(&self) -> PoolView {
        PoolView { list: self.buffer_list@, len: self.len as int, next_handle: self.next_handle as int }
    }
}

impl MultiPool {
    /// The pool's invariants hold.
    pub open spec fn wf(&self) -> bool {
        pool_wf(self@)
    }

    /// An empty pool over a region of length zero.
    pub fn new() -> (r: MultiPool)
        ensures
            r.wf(),
            r@.list.len() == 0,
            r@.len == 0,
            r@.next_handle == 0,
    {
        MultiPool { buffer_list: Vec::new(), len: 0, next_handle: 0 }
    }

    /// Committed length of the shared region.
    pub fn len(&self) -> (r: usize)
        requires
            self.wf(),
        ensures
            r == self@.len,
    {
        self.len as usize
    }

    /// Records that the shared region grew to `size` bytes. The region only
    /// grows: a smaller size changes nothing. A size beyond the protocol's
    /// signed 32-bit range is refused.
    pub fn resize(&mut self, size: usize) -> (r: Result<(), BufferAccessError>)
        requires
            old(self).wf(),
        ensures
            final(self).wf(),
            final(self)@.list == old(self)@.list,
            final(self)@.next_handle == old(self)@.next_handle,
            size > PROTOCOL_MAX ==> {
                &&& r == Err::<(), _>(BufferAccessError::OutOfMemory)
                &&& final(self)@.len == old(self)@.len
            },
            size <= PROTOCOL_MAX ==> {
                &&& r == Ok::<(), BufferAccessError>(())
                &&& final(self)@.len == if size > old(self)@.len {
                    size as int
                } else {
                    old(self)@.len
                }
            },
    {
        if size > PROTOCOL_MAX as usize {
            return Err(BufferAccessError::OutOfMemory);
        }
        if size as u64 > self.len {
            self.len = size as u64;
        }
        Ok(())
    }

    /// Where one step of the request scan leaves allocation `a`, with `front`
    /// the end of the allocation before it; `found` tells whether the
    /// requested key was met earlier in the scan.
    fn relocate(
        a: Allocation,
        key: u64,
        sh: BufferShape,
        size: u64,
        grown: u64,
        front: u64,
        found: bool,
    ) -> (b: Allocation)
        requires
            size == sh.size(),
            grown == padded(size as int),
            grown % 4 == 0,
            grown <= 2 * PROTOCOL_MAX,
            a.offset % 4 == 0,
            end(a) <= PROTOCOL_MAX,
            a.used <= a.size,
            a.used == a.shape.size(),
            found ==> a.key != key,
            front <= a.offset + (if found {
                grown as int
            } else {
                0
            }),
        ensures
            b == relocated(a, key, sh, front as int),
            b.offset >= front,
            b.offset % 4 == 0,
            b.used <= b.size,
            b.used == b.shape.size(),
            b.buffer is None || b.buffer == a.buffer,
            end(b) <= end(a) + (if found || a.key == key {
                grown as int
            } else {
                0
            }),
    {
        let shifted = a.offset < front;
        let off = if shifted {
            proof {
                lemma_align4(front as int, a.offset + grown);
            }
            align_up4(front)
        } else {
            a.offset
        };
        proof {
            lemma_align4(size + size / 20, grown as int);
        }
        if a.key == key {
            let cap = if size <= a.size {
                a.size
            } else {
                grown
            };
            let keep = off == a.offset && a.shape == sh;
            Allocation {
                key: a.key,
                free: a.free,
                offset: off,
                size: cap,
                used: size,
                shape: sh,
                buffer: if keep {
                    a.buffer
                } else {
                    None
                },
            }
        } else {
            Allocation {
                key: a.key,
                free: a.free,
                offset: off,
                size: a.size,
                used: a.used,
                shape: a.shape,
                buffer: if off == a.offset {
                    a.buffer
                } else {
                    None
                },
            }
        }
    }

    /// Lays the table out for a request of `key` with shape `sh`: the
    /// relaid table, the handles it invalidates and the index of the key's
    /// allocation; or `InUse` when a busy allocation would have to change.
    #[verifier::rlimit(50)]
    fn lay_out(&self, key: u64, sh: BufferShape) -> (r: Result<
        (Vec<Allocation>, Vec<u64>, usize),
        BufferAccessError,
    >)
        requires
            self.wf(),
            sh.size() <= PROTOCOL_MAX,
        ensures
            r is Err <==> in_use(self@.list, key, sh),
            r is Err ==> r == Err::<(Vec<Allocation>, Vec<u64>, usize), _>(BufferAccessError::InUse),
            r matches Ok((out, retired, j)) ==> {
                let t = table_after(self@.list, key, sh);
                &&& out@ == t
                &&& retired@ == dropped(self@.list, t)
                &&& j == position(t, key)
                &&& j < t.len()
                &&& t[j as int].key == key
                &&& ordered(t)
                &&& aligned(t)
                &&& unique_keys(t)
                &&& forall|k: int| 0 <= k < t.len() ==> #[trigger] t[k].used <= t[k].size
                &&& forall|k: int| 0 <= k < t.len() ==> #[trigger] t[k].used == t[k].shape.size()
                &&& forall|k: int| 0 <= k < t.len() ==> #[trigger] end(t[k]) <= frontier(t)
                &&& frontier(t) == end(t[t.len() - 1])
                &&& frontier(t) <= 4 * PROTOCOL_MAX
                &&& t.len() >= self@.list.len()
                &&& t.len() <= self@.list.len() + 1
                &&& forall|k: int|
                    0 <= k < self@.list.len() ==> (#[trigger] t[k].buffer) is None || t[k].buffer
                        == self@.list[k].buffer
                &&& t.len() > self@.list.len() ==> t[self@.list.len() as int].buffer is None
            },
    {
        let size: u64 = sh.byte_len();
        let grown: u64 = align_up4(size + size / 20);
        let ghost s = self.buffer_list@;
        let n = self.buffer_list.len();
        let mut out: Vec<Allocation> = Vec::new();
        let mut retired: Vec<u64> = Vec::new();
        let mut front: u64 = 0;
        let mut target: Option<usize> = None;
        let mut i: usize = 0;
        proof {
            assert(s.take(0) =~= Seq::<Allocation>::empty());
            lemma_align4(size + size / 20, grown as int);
        }
        while i < n
            invariant
                self.wf(),
                s == self.buffer_list@,
                n == s.len(),
                size == sh.size(),
                size <= PROTOCOL_MAX,
                grown == padded(size as int),
                grown % 4 == 0,
                grown <= 2 * PROTOCOL_MAX,
                0 <= i <= n,
                out@ == relayout(s.take(i as int), key, sh),
                front == frontier(out@),
                retired@ == dropped(s.take(i as int), out@),
                target is Some ==> target.unwrap() < i && s[target.unwrap() as int].key == key,
                target is None ==> forall|k: int| 0 <= k < i ==> #[trigger] s[k].key != key,
                forall|k: int|
                    0 <= k < i ==> !#[trigger] blocked(
                        s[k],
                        key,
                        frontier(relayout(s.take(k), key, sh)),
                    ),
                out@.len() == i,
                ordered(out@),
                aligned(out@),
                forall|k: int| 0 <= k < out@.len() ==> #[trigger] out@[k].used <= out@[k].size,
                forall|k: int| 0 <= k < out@.len() ==> #[trigger] out@[k].used == out@[k].shape.size(),
                forall|k: int| 0 <= k < out@.len() ==> #[trigger] end(out@[k]) <= 3 * PROTOCOL_MAX,
                forall|k: int|
                    0 <= k < out@.len() ==> (#[trigger] out@[k].buffer) is None || out@[k].buffer
                        == s[k].buffer,
                front <= 3 * PROTOCOL_MAX,
                i == 0 ==> front == 0,
                i > 0 ==> front <= end(s[i - 1]) + (if target is Some {
                    grown as int
                } else {
                    0
                }),
            decreases n - i,
        {
            let a = self.buffer_list[i];
            proof {
                lemma_relayout_step(s, key, sh, i as int);
                if i > 0 {
                    assert(end(s[i - 1]) <= s[i as int].offset);
                }
                assert(end(a) <= self.len);
                assert(a.offset % 4 == 0);
            }
            if !a.free && (a.key == key || a.offset < front) {
                proof {
                    assert(blocked(s[i as int], key, frontier(relayout(s.take(i as int), key, sh))));
                }
                return Err(BufferAccessError::InUse);
            }
            let hit = a.key == key;
            proof {
                if hit && target is Some {
                    assert(s[target.unwrap() as int].key == key);
                }
            }
            let b = Self::relocate(a, key, sh, size, grown, front, target.is_some());
            if a.buffer.is_some() && b.buffer.is_none() {
                retired.push(a.buffer.unwrap());
            }
            proof {
                lemma_dropped_prefix(s.take(i as int), out@, out@.push(b));
                lemma_dropped_step(s, out@.push(b), i as int);
            }
            front = b.offset + b.size;
            out.push(b);
            if hit {
                target = Some(i);
            }
            i += 1;
        }
        proof {
            assert(s.take(n as int) =~= s);
            lemma_relayout_shape(s, key, sh);
            if target is Some {
                assert(s[target.unwrap() as int].key == key);
                assert(has_key(s, key));
            } else {
                assert(!has_key(s, key));
            }
        }
        let ghost t0 = out@;
        let j: usize = match target {
            Some(j) => j,
            None => {
                let off: u64 = if n == 0 {
                    0
                } else {
                    align_up4(front + out[n - 1].size / 20)
                };
                out.push(
                    Allocation {
                        key,
                        free: true,
                        offset: off,
                        size,
                        used: size,
                        shape: sh,
                        buffer: None,
                    },
                );
                proof {
                    assert(out@.last() == appended(t0, key, sh));
                    assert(out@ == table_after(s, key, sh));
                    lemma_dropped_prefix(s, t0, out@);
                    if n > 0 {
                        lemma_align4_up(front + t0[n - 1].size / 20);
                    }
                }
                n
            },
        };
        let ghost t = out@;
        proof {
            assert(t == table_after(s, key, sh));
            assert(unique_keys(t)) by {
                assert forall|x: int, y: int|
                    0 <= x < t.len() && 0 <= y < t.len() && x != y implies #[trigger] t[x].key
                    != #[trigger] t[y].key by {
                    if x < n && y < n {
                        assert(s[x].key != s[y].key);
                    } else if x < n {
                        assert(s[x].key == t[x].key);
                    } else if y < n {
                        assert(s[y].key == t[y].key);
                    }
                }
            }
            lemma_position_unique(t, key, j as int);
            assert(ordered(t));
            lemma_ends_below_frontier(t);
            assert(t[j as int].used <= t[j as int].size);
            assert(end(t[j as int]) <= 4 * PROTOCOL_MAX);
            assert(frontier(t) == end(t[t.len() - 1]));
            assert(end(t[t.len() - 1]) <= 4 * PROTOCOL_MAX);
        }
        Ok((out, retired, j))
    }

    /// Returns the buffer associated with the given key, or creates one.
    ///
    /// The table is scanned once: the key's allocation is reused, grown if it
    /// is too small, and the allocations behind it are pushed forward when
    /// they would overlap; a new key is appended at the end. The capacity is
    /// raised only when the new size does not fit, and then to the size plus
    /// five percent, rounded up to four bytes; it is never shrunk, so asking
    /// again for a shape that already fits never moves anything. A busy allocation
    /// is never grown nor moved. On success the allocation is claimed.
    /// Any error, and a request to grow the region, leave the pool unchanged.
    #[verifier::rlimit(50)]
    pub fn create_buffer(
        &mut self,
        width: u32,
        height: u32,
        bytes_per_pixel: u32,
        key: u64,
        format: u32,
    ) -> (r: Result<CreateOutcome, BufferAccessError>)
        requires
            old(self).wf(),
        ensures
            final(self).wf(),
            !shape_ok(width, height, bytes_per_pixel) ==> {
                &&& r == Err::<CreateOutcome, _>(BufferAccessError::InvalidShape)
                &&& final(self)@ == old(self)@
            },
            shape_ok(width, height, bytes_per_pixel) ==> {
                let sh = shape_of(width, height, bytes_per_pixel, format);
                let s = old(self)@.list;
                let t = table_after(s, key, sh);
                let p = position(t, key);
                &&& in_use(s, key, sh) ==> {
                    &&& r == Err::<CreateOutcome, _>(BufferAccessError::InUse)
                    &&& final(self)@ == old(self)@
                }
                &&& !in_use(s, key, sh) && frontier(t) > old(self)@.len ==> {
                    &&& final(self)@ == old(self)@
                    &&& grow_len(t, key) <= PROTOCOL_MAX ==> (r matches Ok(CreateOutcome::Grow(n))
                        && n == grow_len(t, key))
                    &&& grow_len(t, key) > PROTOCOL_MAX ==> r == Err::<CreateOutcome, _>(
                        BufferAccessError::OutOfMemory,
                    )
                }
                &&& !in_use(s, key, sh) && frontier(t) <= old(self)@.len && handles_exhausted(
                    old(self)@,
                    key,
                    sh,
                ) ==> {
                    &&& r == Err::<CreateOutcome, _>(BufferAccessError::OutOfMemory)
                    &&& final(self)@ == old(self)@
                }
                &&& !in_use(s, key, sh) && frontier(t) <= old(self)@.len && !handles_exhausted(
                    old(self)@,
                    key,
                    sh,
                ) ==> {
                    &&& final(self)@ == committed(old(self)@, key, sh)
                    &&& (r matches Ok(CreateOutcome::Ready(slot)) && {
                        &&& slot.offset == t[p].offset
                        &&& slot.size == sh.size()
                        &&& slot.shape == sh
                        &&& slot.created == (t[p].buffer is None)
                        &&& Some(slot.handle) == final(self)@.list[p].buffer
                        &&& slot.retired@ == dropped(s, t)
                    })
                }
            },
    {
        let sh = match check_shape(width, height, bytes_per_pixel, format) {
            Some(sh) => sh,
            None => {
                return Err(BufferAccessError::InvalidShape);
            },
        };
        let (mut out, retired, j) = match self.lay_out(key, sh) {
            Ok(laid) => laid,
            Err(e) => {
                return Err(e);
            },
        };
        let size: u64 = sh.byte_len();
        let ghost t = out@;
        proof {
            assert(end(t[j as int]) <= frontier(t));
            assert(t[j as int].used <= t[j as int].size);
        }
        let last_end: u64 = out[out.len() - 1].offset + out[out.len() - 1].size;
        if last_end > self.len {
            let need = Self::grow_target(&out, j, key);
            if need > PROTOCOL_MAX as u64 {
                return Err(BufferAccessError::OutOfMemory);
            }
            return Ok(CreateOutcome::Grow(need as usize));
        }
        let a = out[j];
        proof {
            assert(end(a) <= frontier(t));
        }
        let created = a.buffer.is_none();
        if created && self.next_handle == u64::MAX {
            return Err(BufferAccessError::OutOfMemory);
        }
        let handle: u64 = if created {
            self.next_handle
        } else {
            a.buffer.unwrap()
        };
        let c = Allocation {
            key: a.key,
            free: false,
            offset: a.offset,
            size: a.size,
            used: a.used,
            shape: a.shape,
            buffer: Some(handle),
        };
        out.set(j, c);
        self.buffer_list = out;
        if created {
            self.next_handle = self.next_handle + 1;
        }
        proof {
            assert(c == claimed(t[j as int], old(self)@.next_handle as u64));
            assert(self@.list =~= committed(old(self)@, key, sh).list);
            assert(self@.list[j as int].buffer == Some(handle));
            let l = self@.list;
            assert forall|k: int| 0 <= k < l.len() implies #[trigger] l[k].offset == t[k].offset
                && l[k].size == t[k].size && l[k].key == t[k].key && l[k].used == t[k].used
                && l[k].shape == t[k].shape by {}
            assert forall|x: int, y: int| 0 <= x < y < l.len() implies #[trigger] end(l[x])
                <= #[trigger] l[y].offset by {
                assert(end(t[x]) <= t[y].offset);
            }
            assert forall|x: int| 0 <= x < l.len() implies #[trigger] end(l[x]) <= self.len by {
                assert(end(t[x]) <= frontier(t));
            }
            assert(aligned(l));
            assert(unique_keys(l));
            let s = old(self)@.list;
            assert forall|k: int| 0 <= k < l.len() && k != j implies #[trigger] l[k].buffer is None || (
            k < s.len() && l[k].buffer == s[k].buffer) by {
                assert(l[k] == t[k]);
                if k < s.len() {
                    assert(t[k].buffer is None || t[k].buffer == s[k].buffer);
                } else {
                    assert(t[s.len() as int].buffer is None);
                }
            }
            assert(created ==> handle == old(self)@.next_handle);
            assert(!created ==> j < s.len() && Some(handle) == s[j as int].buffer) by {
                if !created {
                    if j >= s.len() {
                        assert(t[s.len() as int].buffer is None);
                    }
                    assert(t[j as int].buffer == s[j as int].buffer);
                }
            }
            assert forall|k: int| 0 <= k < l.len() && (#[trigger] l[k].buffer) is Some implies l[k].buffer.unwrap()
                < self.next_handle by {
                if k != j {
                    assert(s[k].buffer is Some);
                }
            }
            assert forall|x: int, y: int|
                0 <= x < l.len() && 0 <= y < l.len() && x != y && l[x].buffer is Some implies #[trigger] l[x].buffer
                != #[trigger] l[y].buffer by {
                if x != j && y != j {
                    if l[y].buffer is Some {
                        assert(s[x].buffer != s[y].buffer);
                    }
                } else if x == j {
                    if l[y].buffer is Some {
                        assert(s[y].buffer is Some);
                        if !created {
                            assert(s[x].buffer != s[y].buffer);
                        }
                    }
                } else {
                    assert(s[x].buffer is Some);
                    if !created {
                        assert(s[x].buffer != s[y].buffer);
                    }
                }
            }
            assert(handles_fresh(l, self.next_handle as int));
        }
        Ok(
            CreateOutcome::Ready(
                BufferSlot {
                    offset: a.offset as usize,
                    size: size as usize,
                    shape: sh,
                    handle,
                    created,
                    retired,
                },
            ),
        )
    }

    /// Index of the allocation for `key`, if there is one.
    fn index_of(&self, key: u64) -> (r: Option<usize>)
        requires
            self.wf(),
        ensures
            r is Some <==> has_key(self@.list, key),
            r is Some ==> r.unwrap() == position(self@.list, key),
            r is Some ==> r.unwrap() < self@.list.len(),
    {
        let ghost s = self.buffer_list@;
        proof {
            lemma_position(s, key);
        }
        let mut i: usize = 0;
        while i < self.buffer_list.len()
            invariant
                self.wf(),
                s == self.buffer_list@,
                0 <= i <= s.len(),
                forall|k: int| 0 <= k < i ==> #[trigger] s[k].key != key,
            decreases s.len() - i,
        {
            if self.buffer_list[i].key == key {
                proof {
                    lemma_position_unique(s, key, i as int);
                }
                return Some(i);
            }
            i += 1;
        }
        None
    }

    /// The allocation for `key`, if there is one.
    pub fn allocation(&self, key: u64) -> (r: Option<Allocation>)
        requires
            self.wf(),
        ensures
            has_key(self@.list, key) ==> r == Some(self@.list[position(self@.list, key)]),
            !has_key(self@.list, key) ==> r is None,
    {
        match self.index_of(key) {
            Some(i) => Some(self.buffer_list[i]),
            None => None,
        }
    }

    /// Claims the buffer of an existing, free allocation without changing its
    /// shape, and returns its byte range as `(offset, length)`.
    ///
    /// Writing to the range does not present it: the handle has to be
    /// attached to a surface and the surface committed.
    pub fn acquire_buffer(&mut self, key: u64) -> (r: Result<(usize, usize), BufferAccessError>)
        requires
            old(self).wf(),
        ensures
            final(self).wf(),
            final(self)@.len == old(self)@.len,
            final(self)@.next_handle == old(self)@.next_handle,
            ({
                let s = old(self)@.list;
                let p = position(s, key);
                &&& !has_key(s, key) ==> r == Err::<(usize, usize), _>(BufferAccessError::InvalidKey)
                    && final(self)@.list == s
                &&& has_key(s, key) && !s[p].free ==> r == Err::<(usize, usize), _>(
                    BufferAccessError::InUse,
                ) && final(self)@.list == s
                &&& has_key(s, key) && s[p].free ==> r == Ok::<_, BufferAccessError>(
                    (s[p].offset as usize, s[p].used as usize),
                ) && final(self)@.list == s.update(p, Allocation { free: false, ..s[p] })
            }),
    {
        let i = match self.index_of(key) {
            Some(i) => i,
            None => {
                return Err(BufferAccessError::InvalidKey);
            },
        };
        let a = self.buffer_list[i];
        if !a.free {
            return Err(BufferAccessError::InUse);
        }
        proof {
            assert(end(a) <= self.len);
        }
        let c = Allocation {
            key: a.key,
            free: false,
            offset: a.offset,
            size: a.size,
            used: a.used,
            shape: a.shape,
            buffer: a.buffer,
        };
        self.buffer_list.set(i, c);
        proof {
            let l = self@.list;
            let s = old(self)@.list;
            assert(forall|k: int| 0 <= k < l.len() ==> #[trigger] l[k].offset == s[k].offset && l[k].size
                == s[k].size && l[k].key == s[k].key && l[k].used == s[k].used);
            assert(ordered(l));
            assert(aligned(l));
            assert(unique_keys(l));
            assert(within(l, self.len as int));
        }
        Ok((a.offset as usize, a.used as usize))
    }

    /// The remote peer released handle `handle`: the allocation it is bound
    /// to becomes free. A handle that was invalidated since changes nothing.
    pub fn release(&mut self, handle: u64)
        requires
            old(self).wf(),
        ensures
            final(self).wf(),
            final(self)@.len == old(self)@.len,
            final(self)@.next_handle == old(self)@.next_handle,
            final(self)@.list == released(old(self)@.list, handle),
    {
        let ghost s = self.buffer_list@;
        let mut i: usize = 0;
        while i < self.buffer_list.len()
            invariant
                self.wf(),
                self@.len == old(self)@.len,
                self@.next_handle == old(self)@.next_handle,
                s == old(self)@.list,
                self.buffer_list@.len() == s.len(),
                0 <= i <= s.len(),
                forall|k: int| 0 <= k < i ==> #[trigger] self.buffer_list@[k] == released(s, handle)[k],
                forall|k: int| i <= k < s.len() ==> #[trigger] self.buffer_list@[k] == s[k],
            decreases s.len() - i,
        {
            let a = self.buffer_list[i];
            if a.buffer == Some(handle) {
                let c = Allocation {
                    key: a.key,
                    free: true,
                    offset: a.offset,
                    size: a.size,
                    used: a.used,
                    shape: a.shape,
                    buffer: a.buffer,
                };
                let ghost before = self.buffer_list@;
                proof {
                    assert(ordered(before));
                    assert(within(before, self.len as int));
                }
                self.buffer_list.set(i, c);
                proof {
                    let l = self.buffer_list@;
                    assert(forall|k: int| 0 <= k < l.len() ==> #[trigger] l[k].offset == before[k].offset
                        && l[k].size == before[k].size && l[k].key == before[k].key && l[k].used
                        == before[k].used);
                    assert forall|x: int, y: int| 0 <= x < y < l.len() implies #[trigger] end(l[x])
                        <= #[trigger] l[y].offset by {
                        assert(end(before[x]) <= before[y].offset);
                    }
                    assert forall|x: int| 0 <= x < l.len() implies #[trigger] end(l[x])
                        <= self.len by {
                        assert(end(before[x]) <= self.len);
                    }
                    assert(aligned(l));
                    assert(unique_keys(l));
                }
            }
            i += 1;
        }
        proof {
            assert(self.buffer_list@ =~= released(s, handle));
        }
    }

    /// Removes the allocation for `key` and compacts the table behind it:
    /// each following free allocation moves back to close the gap, up to the
    /// first busy one, whose memory must not move under the remote peer.
    /// Returns the handles whose remote objects have to be destroyed: the
    /// removed allocation's own and those of the moved ones.
    pub fn remove(&mut self, key: u64) -> (r: Result<Vec<u64>, BufferAccessError>)
        requires
            old(self).wf(),
        ensures
            final(self).wf(),
            final(self)@.len == old(self)@.len,
            final(self)@.next_handle == old(self)@.next_handle,
            ({
                let s = old(self)@.list;
                let p = position(s, key);
                &&& !has_key(s, key) ==> r == Err::<Vec<u64>, _>(BufferAccessError::InvalidKey)
                    && final(self)@.list == s
                &&& has_key(s, key) ==> final(self)@.list == removed(s, p) && (r matches Ok(v)
                    && v@ == removed_handles(s, p))
            }),
    {
        let j = match self.index_of(key) {
            Some(j) => j,
            None => {
                return Err(BufferAccessError::InvalidKey);
            },
        };
        let ghost s = self.buffer_list@;
        let ghost u = s.skip(j + 1);
        let ghost goal = removed(s, j as int);
        let gone = self.buffer_list.remove(j);
        let mut retired: Vec<u64> = Vec::new();
        if gone.buffer.is_some() {
            retired.push(gone.buffer.unwrap());
        }
        let mut f: u64 = gone.offset;
        let mut k: usize = j;
        proof {
            let l = self.buffer_list@;
            assert(l =~= s.take(j as int) + u);
            assert(l.take(j as int) =~= s.take(j as int));
            assert(u.skip(0) =~= u);
            assert(end(gone) <= self.len);
            assert forall|x: int, y: int| 0 <= x < y < l.len() implies #[trigger] end(l[x])
                <= #[trigger] l[y].offset by {
                let sx = if x < j { x } else { x + 1 };
                let sy = if y < j { y } else { y + 1 };
                assert(end(s[sx]) <= s[sy].offset);
            }
            assert forall|x: int, y: int|
                0 <= x < l.len() && 0 <= y < l.len() && x != y implies #[trigger] l[x].key
                != #[trigger] l[y].key by {
                let sx = if x < j { x } else { x + 1 };
                let sy = if y < j { y } else { y + 1 };
                assert(s[sx].key != s[sy].key);
            }
            assert forall|x: int| 0 <= x < l.len() && (#[trigger] l[x].buffer) is Some implies l[x].buffer.unwrap()
                < self.next_handle by {
                let sx = if x < j { x } else { x + 1 };
                assert(s[sx].buffer == l[x].buffer);
            }
            assert forall|x: int, y: int|
                0 <= x < l.len() && 0 <= y < l.len() && x != y && l[x].buffer is Some implies #[trigger] l[x].buffer
                != #[trigger] l[y].buffer by {
                let sx = if x < j { x } else { x + 1 };
                let sy = if y < j { y } else { y + 1 };
                assert(s[sx].buffer != s[sy].buffer);
            }
            assert forall|m: int| 0 <= m < j implies #[trigger] end(l[m]) <= f by {
                assert(end(s[m]) <= s[j as int].offset);
            }
            if j < l.len() {
                assert(end(s[j as int]) <= s[j + 1].offset);
            }
            assert(retired@ =~= if s[j as int].buffer is Some {
                seq![s[j as int].buffer.unwrap()]
            } else {
                seq![]
            });
        }
        while k < self.buffer_list.len()
            invariant
                self@.len == old(self)@.len,
                self@.next_handle == old(self)@.next_handle,
                0 <= self@.len <= PROTOCOL_MAX,
                0 <= self@.next_handle <= u64::MAX,
                u == s.skip(j + 1),
                goal == removed(s, j as int),
                0 <= j < s.len(),
                self.buffer_list@.len() == s.len() - 1,
                j <= k <= self.buffer_list@.len(),
                goal == self.buffer_list@.take(k as int) + compact(u.skip(k - j), f as int),
                forall|m: int|
                    k <= m < self.buffer_list@.len() ==> #[trigger] self.buffer_list@[m] == s[m + 1],
                removed_handles(s, j as int) == retired@ + compact_dropped(u.skip(k - j), f as int),
                ordered(self.buffer_list@),
                aligned(self.buffer_list@),
                unique_keys(self.buffer_list@),
                handles_fresh(self.buffer_list@, self.next_handle as int),
                within(self.buffer_list@, self.len as int),
                forall|m: int|
                    0 <= m < self.buffer_list@.len() ==> #[trigger] self.buffer_list@[m].used
                        <= self.buffer_list@[m].size,
                forall|m: int|
                    0 <= m < self.buffer_list@.len() ==> #[trigger] self.buffer_list@[m].used
                        == self.buffer_list@[m].shape.size(),
                forall|m: int| 0 <= m < k ==> #[trigger] end(self.buffer_list@[m]) <= f,
                k < self.buffer_list@.len() ==> f <= self.buffer_list@[k as int].offset,
                f <= PROTOCOL_MAX,
            ensures
                goal == self.buffer_list@,
                removed_handles(s, j as int) == retired@,
            decreases self.buffer_list@.len() - k,
        {
            let ghost w = u.skip(k - j);
            let ghost l0 = self.buffer_list@;
            let ghost f0 = f as int;
            let a = self.buffer_list[k];
            proof {
                assert(w.len() > 0);
                assert(w[0] == a);
                assert(w.drop_first() =~= u.skip(k + 1 - j));
            }
            if !a.free {
                proof {
                    assert(l0 =~= l0.take(k as int) + w);
                }
                break;
            }
            proof {
                assert(end(a) <= self.len);
                assert(a.offset % 4 == 0);
                lemma_align4(f as int, a.offset as int);
            }
            let off = align_up4(f);
            let b = Allocation {
                key: a.key,
                free: a.free,
                offset: off,
                size: a.size,
                used: a.used,
                shape: a.shape,
                buffer: if off == a.offset {
                    a.buffer
                } else {
                    None
                },
            };
            if a.buffer.is_some() && off != a.offset {
                retired.push(a.buffer.unwrap());
            }
            self.buffer_list.set(k, b);
            f = off + a.size;
            k += 1;
            proof {
                let l = self.buffer_list@;
                assert(l.take(k as int) =~= l0.take(k - 1).push(b));
                assert forall|x: int, y: int| 0 <= x < y < l.len() implies #[trigger] end(l[x])
                    <= #[trigger] l[y].offset by {
                    assert(end(l0[x]) <= l0[y].offset);
                }
                assert forall|x: int, y: int|
                    0 <= x < l.len() && 0 <= y < l.len() && x != y implies #[trigger] l[x].key
                    != #[trigger] l[y].key by {
                    assert(l0[x].key != l0[y].key);
                }
                assert forall|x: int| 0 <= x < l.len() implies #[trigger] end(l[x]) <= self.len by {
                    assert(end(l0[x]) <= self.len);
                }
                lemma_handles_kept(l0, l, self.next_handle as int);
                assert forall|m: int| 0 <= m < k implies #[trigger] end(l[m]) <= f by {
                    if m < k - 1 {
                        assert(end(l0[m]) <= f0);
                    }
                }
                if k < l.len() {
                    assert(end(l0[k - 1]) <= l0[k as int].offset);
                }
            }
        }
        proof {
            assert(self@.list == goal);
            lemma_ends_below_frontier(self.buffer_list@);
        }
        Ok(retired)
    }

    /// Region length a laid-out table needs, for the allocation of `key` at `j`.
    fn grow_target(out: &Vec<Allocation>, j: usize, key: u64) -> (r: u64)
        requires
            j == position(out@, key),
            j < out@.len(),
            frontier(out@) == end(out@[out@.len() - 1]),
            end(out@[j as int]) <= frontier(out@) <= 4 * PROTOCOL_MAX,
            out@[j as int].used <= out@[j as int].size,
        ensures
            r == grow_len(out@, key),
    {
        let last_end: u64 = out[out.len() - 1].offset + out[out.len() - 1].size;
        let a = out[j];
        let want: u64 = a.offset + a.used + a.used / 20;
        if last_end >= want {
            last_end
        } else {
            want
        }
    }

    /// Gives the free allocation for `key` a new shape, keeping its format,
    /// without claiming it. A busy allocation is refused before the shape is
    /// looked at; a shape of the byte size already in use changes nothing
    /// (the next request rebinds the handle if the geometry differs). The allocation is reshaped in place, as a request
    /// would: its capacity is raised when the new size does not fit, and the
    /// free allocations behind it are pushed forward; a busy one that would
    /// have to move makes the call fail. Its handle is dropped when the shape
    /// changes; the next request creates a new one.
    pub fn resize_buffer(&mut self, key: u64, width: i32, stride: i32, height: i32) -> (r: Result<
        ResizeOutcome,
        BufferAccessError,
    >)
        requires
            old(self).wf(),
        ensures
            final(self).wf(),
            final(self)@.len == old(self)@.len,
            final(self)@.next_handle == old(self)@.next_handle,
            ({
                let s = old(self)@.list;
                let p = position(s, key);
                let sh = stride_shape_of(width, stride, height, s[p].shape.format);
                let t = table_after(s, key, sh);
                &&& !has_key(s, key) ==> r == Err::<ResizeOutcome, _>(BufferAccessError::InvalidKey)
                    && final(self)@.list == s
                &&& has_key(s, key) && !s[p].free ==> r == Err::<ResizeOutcome, _>(
                    BufferAccessError::InUse,
                ) && final(self)@.list == s
                &&& has_key(s, key) && s[p].free && !stride_shape_ok(width, stride, height) ==> r
                    == Err::<ResizeOutcome, _>(BufferAccessError::InvalidShape) && final(self)@.list
                    == s
                &&& has_key(s, key) && s[p].free && stride_shape_ok(width, stride, height) && sh.size()
                    == s[p].used ==> (r matches Ok(ResizeOutcome::Done(v)) && v@.len() == 0)
                    && final(self)@.list == s
                &&& has_key(s, key) && s[p].free && stride_shape_ok(width, stride, height) && sh.size()
                    != s[p].used ==> {
                    &&& in_use(s, key, sh) ==> r == Err::<ResizeOutcome, _>(BufferAccessError::InUse)
                        && final(self)@.list == s
                    &&& !in_use(s, key, sh) && frontier(t) > old(self)@.len ==> {
                        &&& final(self)@.list == s
                        &&& grow_len(t, key) <= PROTOCOL_MAX ==> (r matches Ok(ResizeOutcome::Grow(n))
                            && n == grow_len(t, key))
                        &&& grow_len(t, key) > PROTOCOL_MAX ==> r == Err::<ResizeOutcome, _>(
                            BufferAccessError::OutOfMemory,
                        )
                    }
                    &&& !in_use(s, key, sh) && frontier(t) <= old(self)@.len ==> {
                        &&& final(self)@.list == t
                        &&& (r matches Ok(ResizeOutcome::Done(v)) && v@ == dropped(s, t))
                    }
                }
            }),
    {
        let i = match self.index_of(key) {
            Some(i) => i,
            None => {
                return Err(BufferAccessError::InvalidKey);
            },
        };
        let current = self.buffer_list[i];
        if !current.free {
            return Err(BufferAccessError::InUse);
        }
        let sh = match check_stride_shape(width, stride, height, current.shape.format) {
            Some(sh) => sh,
            None => {
                return Err(BufferAccessError::InvalidShape);
            },
        };
        if sh.byte_len() == current.used {
            return Ok(ResizeOutcome::Done(Vec::new()));
        }
        let (out, retired, j) = match self.lay_out(key, sh) {
            Ok(laid) => laid,
            Err(e) => {
                return Err(e);
            },
        };
        let ghost t = out@;
        proof {
            assert(end(t[j as int]) <= frontier(t));
            assert(t[j as int].used <= t[j as int].size);
        }
        let last_end: u64 = out[out.len() - 1].offset + out[out.len() - 1].size;
        if last_end > self.len {
            let need = Self::grow_target(&out, j, key);
            if need > PROTOCOL_MAX as u64 {
                return Err(BufferAccessError::OutOfMemory);
            }
            return Ok(ResizeOutcome::Grow(need as usize));
        }
        self.buffer_list = out;
        proof {
            assert forall|x: int| 0 <= x < t.len() implies #[trigger] end(t[x]) <= self.len by {
                assert(end(t[x]) <= frontier(t));
            }
            lemma_relayout_shape(old(self)@.list, key, sh);
            assert(t.len() == old(self)@.list.len());
            lemma_handles_kept(old(self)@.list, t, self.next_handle as int);
        }
        Ok(ResizeOutcome::Done(retired))
    }
}

} // verus!
