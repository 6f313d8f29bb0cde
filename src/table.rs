use vstd::prelude::*;

use crate::shape::{align4, BufferShape};

verus! {

/// One keyed reservation inside the shared region.
#[derive(Clone, Copy, Debug)]
pub struct Allocation {
    /// Caller-chosen identity; unique across the table.
    pub key: u64,
    /// `false` while the remote peer may still read the current contents.
    pub free: bool,
    /// Start of the reservation, a multiple of four.
    pub offset: u64,
    /// Bytes reserved (the capacity).
    pub size: u64,
    /// Bytes consumed by the current shape.
    pub used: u64,
    /// The shape the current handle is (or will be) bound to.
    pub shape: BufferShape,
    /// Identity of the live remote handle, if one exists.
    pub buffer: Option<u64>,
}

/// End of an allocation's reserved range.
pub open spec fn end(a: Allocation) -> int {
    a.offset + a.size
}

/// End of the last allocation of a table, or zero for an empty one.
pub open spec fn frontier(t: Seq<Allocation>) -> int {
    if t.len() == 0 {
        0
    } else {
        end(t.last())
    }
}

/// Ranges are laid out in table order, one after the other, without overlap.
pub open spec fn ordered(t: Seq<Allocation>) -> bool {
    forall|i: int, j: int| 0 <= i < j < t.len() ==> #[trigger] end(t[i]) <= #[trigger] t[j].offset
}

/// Every offset is a multiple of four.
pub open spec fn aligned(t: Seq<Allocation>) -> bool {
    forall|i: int| 0 <= i < t.len() ==> #[trigger] t[i].offset % 4 == 0
}

/// No key occurs twice.
pub open spec fn unique_keys(t: Seq<Allocation>) -> bool {
    forall|i: int, j: int| 0 <= i < t.len() && 0 <= j < t.len() && i != j
        ==> #[trigger] t[i].key != #[trigger] t[j].key
}

/// Every range lies inside `[0, len)`.
pub open spec fn within(t: Seq<Allocation>, len: int) -> bool {
    forall|i: int| 0 <= i < t.len() ==> #[trigger] end(t[i]) <= len
}

/// Every handle in the table was issued before `next`, and no two
/// allocations hold the same handle.
pub open spec fn handles_fresh(t: Seq<Allocation>, next: int) -> bool {
    &&& forall|k: int| 0 <= k < t.len() && (#[trigger] t[k].buffer) is Some ==> t[k].buffer.unwrap() < next
    &&& forall|i: int, j: int|
        0 <= i < t.len() && 0 <= j < t.len() && i != j && t[i].buffer is Some ==> #[trigger] t[i].buffer
            != #[trigger] t[j].buffer
}

/// Some allocation of the table carries `key`.
pub open spec fn has_key(t: Seq<Allocation>, key: u64) -> bool {
    exists|k: int| 0 <= k < t.len() && #[trigger] t[k].key == key
}

/// Index of the last allocation that carries `key`, or -1.
pub open spec fn position(t: Seq<Allocation>, key: u64) -> int
    decreases t.len(),
{
    if t.len() == 0 {
        -1
    } else if t.last().key == key {
        t.len() - 1
    } else {
        position(t.drop_last(), key)
    }
}

/// Capacity wanted for `used` bytes: five percent headroom, rounded up to four bytes.
pub open spec fn padded(used: int) -> int {
    align4(used + used / 20)
}

/// Where a scan with running frontier `f` leaves allocation `a` when `key` is
/// requested with shape `sh`: pushed forward to the frontier if it lies behind it,
/// reshaped if it is the requested one (its capacity raised to the padded size
/// only when the new size does not fit, never shrunk), its handle dropped when
/// the bound offset or shape changes.
pub open spec fn relocated(a: Allocation, key: u64, sh: BufferShape, f: int) -> Allocation {
    let off: int = if a.offset < f { align4(f) } else { a.offset as int };
    if a.key == key {
        let cap: int = if sh.size() <= a.size { a.size as int } else { padded(sh.size()) };
        let keep = off == a.offset && a.shape == sh;
        Allocation {
            offset: off as u64,
            size: cap as u64,
            used: sh.size() as u64,
            shape: sh,
            buffer: if keep { a.buffer } else { None },
            ..a
        }
    } else {
        Allocation { offset: off as u64, buffer: if off == a.offset { a.buffer } else { None }, ..a }
    }
}

/// The table after one forward scan for `key` with shape `sh`.
pub open spec fn relayout(s: Seq<Allocation>, key: u64, sh: BufferShape) -> Seq<Allocation>
    decreases s.len(),
{
    if s.len() == 0 {
        s
    } else {
        let p = relayout(s.drop_last(), key, sh);
        p.push(relocated(s.last(), key, sh, frontier(p)))
    }
}

/// The scan would have to grow or move a busy allocation.
pub open spec fn blocked(a: Allocation, key: u64, f: int) -> bool {
    !a.free && (a.key == key || a.offset < f)
}

/// A request for `key` with shape `sh` must fail because it would touch an
/// allocation the remote peer may still be reading.
pub open spec fn in_use(s: Seq<Allocation>, key: u64, sh: BufferShape) -> bool {
    exists|k: int|
        0 <= k < s.len() && #[trigger] blocked(s[k], key, frontier(relayout(s.take(k), key, sh)))
}

/// Offset at which a new allocation is appended: after the last one, with five
/// percent of its capacity as padding, rounded up to four bytes.
pub open spec fn append_offset(t: Seq<Allocation>) -> int {
    if t.len() == 0 {
        0
    } else {
        align4(frontier(t) + t.last().size / 20)
    }
}

/// A fresh, free allocation for `key` at the end of `t`, without a handle.
pub open spec fn appended(t: Seq<Allocation>, key: u64, sh: BufferShape) -> Allocation {
    Allocation {
        key,
        free: true,
        offset: append_offset(t) as u64,
        size: sh.size() as u64,
        used: sh.size() as u64,
        shape: sh,
        buffer: None,
    }
}

/// The table once a request for `key` with shape `sh` is laid out, before the
/// allocation is claimed.
pub open spec fn table_after(s: Seq<Allocation>, key: u64, sh: BufferShape) -> Seq<Allocation> {
    let t = relayout(s, key, sh);
    if has_key(s, key) {
        t
    } else {
        t.push(appended(t, key, sh))
    }
}

/// Region length a request needs when it does not fit: the end of the last
/// allocation, and at least five percent past the requested bytes.
pub open spec fn grow_len(t: Seq<Allocation>, key: u64) -> int {
    let a = t[position(t, key)];
    let want: int = a.offset + a.used + a.used / 20;
    if frontier(t) >= want { frontier(t) } else { want }
}

/// `a` claimed by the local writer, bound to handle `h` if it had none.
pub open spec fn claimed(a: Allocation, h: u64) -> Allocation {
    Allocation { free: false, buffer: if a.buffer is None { Some(h) } else { a.buffer }, ..a }
}

/// Handles held by `s` that `t` no longer holds at the same position.
pub open spec fn dropped(s: Seq<Allocation>, t: Seq<Allocation>) -> Seq<u64>
    decreases s.len(),
{
    if s.len() == 0 {
        seq![]
    } else {
        let k = s.len() - 1;
        let rest = dropped(s.drop_last(), t);
        if s[k].buffer is Some && t[k].buffer is None {
            rest.push(s[k].buffer.unwrap())
        } else {
            rest
        }
    }
}

/// Moves free allocations of `u` back towards `f`, one after the other,
/// stopping at the first busy one.
pub open spec fn compact(u: Seq<Allocation>, f: int) -> Seq<Allocation>
    decreases u.len(),
{
    if u.len() == 0 || !u[0].free {
        u
    } else {
        let off = align4(f);
        let a = u[0];
        let b = Allocation { offset: off as u64, buffer: if off == a.offset { a.buffer } else { None }, ..a };
        seq![b] + compact(u.drop_first(), off + a.size)
    }
}

/// The table after `key`'s allocation at index `j` is removed and the
/// allocations behind it are compacted.
pub open spec fn removed(s: Seq<Allocation>, j: int) -> Seq<Allocation> {
    s.take(j) + compact(s.skip(j + 1), s[j].offset as int)
}

/// Handles that `compact(u, f)` invalidates, in table order.
pub open spec fn compact_dropped(u: Seq<Allocation>, f: int) -> Seq<u64>
    decreases u.len(),
{
    if u.len() == 0 || !u[0].free {
        seq![]
    } else {
        let off = align4(f);
        let a = u[0];
        let rest = compact_dropped(u.drop_first(), off + a.size);
        if a.buffer is Some && off != a.offset {
            seq![a.buffer.unwrap()] + rest
        } else {
            rest
        }
    }
}

/// Handles to destroy when the allocation at index `j` is removed: its own,
/// then those of the allocations that compaction moves.
pub open spec fn removed_handles(s: Seq<Allocation>, j: int) -> Seq<u64> {
    let own: Seq<u64> = if s[j].buffer is Some { seq![s[j].buffer.unwrap()] } else { seq![] };
    own + compact_dropped(s.skip(j + 1), s[j].offset as int)
}

/// Every allocation whose current handle is `h` becomes free again.
pub open spec fn released(s: Seq<Allocation>, h: u64) -> Seq<Allocation> {
    s.map_values(|a: Allocation| if a.buffer == Some(h) { Allocation { free: true, ..a } } else { a })
}

// ---------------------------------------------------------------- lemmas

pub proof fn lemma_position(t: Seq<Allocation>, key: u64)
    ensures
        -1 <= position(t, key) < t.len(),
        position(t, key) >= 0 <==> has_key(t, key),
        position(t, key) >= 0 ==> t[position(t, key)].key == key,
    decreases t.len(),
{
    if t.len() > 0 {
        lemma_position(t.drop_last(), key);
        if t.last().key != key {
            if has_key(t, key) {
                let k = choose|k: int| 0 <= k < t.len() && #[trigger] t[k].key == key;
                assert(t.drop_last()[k].key == key);
            }
            if has_key(t.drop_last(), key) {
                let k = choose|k: int| 0 <= k < t.drop_last().len() && #[trigger] t.drop_last()[k].key == key;
                assert(t[k].key == key);
            }
        } else {
            assert(t[t.len() - 1].key == key);
        }
    }
}

pub proof fn lemma_position_unique(t: Seq<Allocation>, key: u64, k: int)
    requires
        unique_keys(t),
        0 <= k < t.len(),
        t[k].key == key,
    ensures
        position(t, key) == k,
{
    lemma_position(t, key);
}

pub proof fn lemma_relayout_step(s: Seq<Allocation>, key: u64, sh: BufferShape, i: int)
    requires
        0 <= i < s.len(),
    ensures
        relayout(s.take(i + 1), key, sh) == relayout(s.take(i), key, sh).push(
            relocated(s[i], key, sh, frontier(relayout(s.take(i), key, sh))),
        ),
{
    assert(s.take(i + 1).drop_last() =~= s.take(i));
}

pub proof fn lemma_relayout_shape(s: Seq<Allocation>, key: u64, sh: BufferShape)
    ensures
        relayout(s, key, sh).len() == s.len(),
        forall|k: int| 0 <= k < s.len() ==> {
            &&& #[trigger] relayout(s, key, sh)[k].key == s[k].key
            &&& relayout(s, key, sh)[k].free == s[k].free
            &&& relayout(s, key, sh)[k].buffer is None || relayout(s, key, sh)[k].buffer == s[k].buffer
        },
    decreases s.len(),
{
    if s.len() > 0 {
        let p = relayout(s.drop_last(), key, sh);
        lemma_relayout_shape(s.drop_last(), key, sh);
        assert forall|k: int| 0 <= k < s.len() implies #[trigger] relayout(s, key, sh)[k].key
            == s[k].key && relayout(s, key, sh)[k].free == s[k].free && (relayout(s, key, sh)[k].buffer
            is None || relayout(s, key, sh)[k].buffer == s[k].buffer) by {
            if k < s.len() - 1 {
                assert(p[k].key == s.drop_last()[k].key);
            }
        }
    }
}

pub proof fn lemma_dropped_prefix(s: Seq<Allocation>, t1: Seq<Allocation>, t2: Seq<Allocation>)
    requires
        s.len() <= t1.len(),
        s.len() <= t2.len(),
        forall|k: int| 0 <= k < s.len() ==> #[trigger] t1[k] == t2[k],
    ensures
        dropped(s, t1) == dropped(s, t2),
    decreases s.len(),
{
    if s.len() > 0 {
        lemma_dropped_prefix(s.drop_last(), t1, t2);
    }
}

pub proof fn lemma_dropped_step(s: Seq<Allocation>, t: Seq<Allocation>, i: int)
    requires
        0 <= i < s.len(),
    ensures
        dropped(s.take(i + 1), t) == if s[i].buffer is Some && t[i].buffer is None {
            dropped(s.take(i), t).push(s[i].buffer.unwrap())
        } else {
            dropped(s.take(i), t)
        },
{
    assert(s.take(i + 1).drop_last() =~= s.take(i));
}

/// In an ordered table each range ends no later than the table's frontier.
pub proof fn lemma_ends_below_frontier(t: Seq<Allocation>)
    requires
        ordered(t),
    ensures
        forall|i: int| 0 <= i < t.len() ==> #[trigger] end(t[i]) <= frontier(t),
{
    assert forall|i: int| 0 <= i < t.len() implies #[trigger] end(t[i]) <= frontier(t) by {
        if i < t.len() - 1 {
            assert(end(t[i]) <= t[t.len() - 1].offset);
        }
    }
}

/// A table that keeps or drops each handle of a table with fresh handles,
/// position by position, has fresh handles too.
pub proof fn lemma_handles_kept(s: Seq<Allocation>, t: Seq<Allocation>, next: int)
    requires
        handles_fresh(s, next),
        t.len() == s.len(),
        forall|k: int| 0 <= k < t.len() ==> (#[trigger] t[k].buffer) is None || t[k].buffer == s[k].buffer,
    ensures
        handles_fresh(t, next),
{
    assert forall|k: int| 0 <= k < t.len() && (#[trigger] t[k].buffer) is Some implies t[k].buffer.unwrap()
        < next by {
        assert(s[k].buffer is Some);
    }
    assert forall|i: int, j: int|
        0 <= i < t.len() && 0 <= j < t.len() && i != j && t[i].buffer is Some implies #[trigger] t[i].buffer
        != #[trigger] t[j].buffer by {
        assert(s[i].buffer is Some);
        assert(s[i].buffer != s[j].buffer);
    }
}

} // verus!
