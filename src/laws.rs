use vstd::prelude::*;

use crate::pool::{committed, handles_exhausted, pool_wf, PoolView};
use crate::shape::BufferShape;
use crate::table::{
    appended, blocked, compact, compact_dropped, dropped, grow_len, removed_handles, end, frontier, has_key, in_use, lemma_position,
    lemma_position_unique, lemma_relayout_shape, ordered, position, released, relayout, removed,
    table_after, unique_keys, Allocation,
};

verus! {

/// Sum of the capacities of a table.
pub open spec fn total_size(u: Seq<Allocation>) -> int
    decreases u.len(),
{
    if u.len() == 0 {
        0
    } else {
        u[0].size + total_size(u.drop_first())
    }
}

/// In a well-formed pool no two allocations overlap, and every allocation
/// lies inside the committed region.
pub proof fn lemma_no_overlap(v: PoolView)
    requires
        pool_wf(v),
    ensures
        forall|i: int, j: int|
            0 <= i < v.list.len() && 0 <= j < v.list.len() && i != j ==> end(#[trigger] v.list[i])
                <= v.list[j].offset || end(#[trigger] v.list[j]) <= v.list[i].offset,
        forall|i: int| 0 <= i < v.list.len() ==> end(#[trigger] v.list[i]) <= v.len,
{
    assert forall|i: int, j: int|
        0 <= i < v.list.len() && 0 <= j < v.list.len() && i != j implies end(#[trigger] v.list[i])
        <= v.list[j].offset || end(#[trigger] v.list[j]) <= v.list[i].offset by {
        if i < j {
            assert(end(v.list[i]) <= v.list[j].offset);
        } else {
            assert(end(v.list[j]) <= v.list[i].offset);
        }
    }
}

/// A successful request claims its allocation: the same request made again
/// before the remote peer releases the buffer fails as in use (and a request
/// that fails as in use leaves the pool unchanged).
pub proof fn lemma_repeat_request_in_use(v: PoolView, key: u64, sh: BufferShape)
    requires
        pool_wf(v),
        !in_use(v.list, key, sh),
        frontier(table_after(v.list, key, sh)) <= v.len,
        !handles_exhausted(v, key, sh),
    ensures
        in_use(committed(v, key, sh).list, key, sh),
{
    let s = v.list;
    let t = table_after(s, key, sh);
    lemma_relayout_shape(s, key, sh);
    if has_key(s, key) {
        let k = choose|k: int| 0 <= k < s.len() && #[trigger] s[k].key == key;
        assert(t[k].key == key);
    } else {
        assert(t[t.len() - 1].key == key);
    }
    lemma_position(t, key);
    let p = position(t, key);
    let c = committed(v, key, sh).list;
    assert(c[p].key == key && !c[p].free);
    assert(blocked(c[p], key, frontier(relayout(c.take(p), key, sh))));
}

/// Scanning a well-formed table for a key whose allocation already has the
/// requested shape changes nothing.
pub proof fn lemma_relayout_unchanged(t: Seq<Allocation>, key: u64, sh: BufferShape)
    requires
        ordered(t),
        forall|k: int|
            0 <= k < t.len() && #[trigger] t[k].key == key ==> t[k].shape == sh && t[k].used
                == sh.size() && t[k].used <= t[k].size,
    ensures
        relayout(t, key, sh) == t,
    decreases t.len(),
{
    if t.len() > 0 {
        let d = t.drop_last();
        assert(ordered(d));
        assert forall|k: int| 0 <= k < d.len() && #[trigger] d[k].key == key implies d[k].shape == sh
            && d[k].used == sh.size() && d[k].used <= d[k].size by {
            assert(t[k].key == key);
        }
        lemma_relayout_unchanged(d, key, sh);
        if d.len() > 0 {
            assert(end(t[d.len() - 1]) <= t[t.len() - 1].offset);
        }
        assert(t =~= d.push(t.last()));
    }
}

/// After the remote peer releases an allocation's current handle, a request
/// for the same key with the shape it already has succeeds in place: nothing
/// is in use, the region need not grow, the table stays as it is and the
/// handle is kept; acquiring the key succeeds too.
pub proof fn lemma_release_then_request(v: PoolView, key: u64, sh: BufferShape, h: u64)
    requires
        pool_wf(v),
        has_key(v.list, key),
        v.list[position(v.list, key)].shape == sh,
        v.list[position(v.list, key)].buffer == Some(h),
    ensures
        ({
            let s2 = released(v.list, h);
            let v2 = PoolView { list: s2, ..v };
            &&& !in_use(s2, key, sh)
            &&& table_after(s2, key, sh) == s2
            &&& frontier(table_after(s2, key, sh)) <= v.len
            &&& !handles_exhausted(v2, key, sh)
            &&& position(s2, key) == position(v.list, key)
            &&& s2[position(s2, key)].buffer == Some(h)
            &&& s2[position(s2, key)].free
        }),
{
    let s = v.list;
    let s2 = released(s, h);
    lemma_position(s, key);
    let p = position(s, key);
    assert forall|k: int| 0 <= k < s2.len() implies #[trigger] s2[k].offset == s[k].offset
        && s2[k].size == s[k].size && s2[k].key == s[k].key && s2[k].used == s[k].used
        && s2[k].shape == s[k].shape && s2[k].buffer == s[k].buffer by {}
    assert(ordered(s2)) by {
        assert forall|i: int, j: int| 0 <= i < j < s2.len() implies #[trigger] end(s2[i])
            <= #[trigger] s2[j].offset by {
            assert(end(s[i]) <= s[j].offset);
        }
    }
    assert(unique_keys(s2));
    lemma_position_unique(s2, key, p);
    assert forall|k: int|
        0 <= k < s2.len() && #[trigger] s2[k].key == key implies s2[k].shape == sh && s2[k].used
        == sh.size() && s2[k].used <= s2[k].size by {
        lemma_position_unique(s2, key, k);
    }
    lemma_relayout_unchanged(s2, key, sh);
    assert(has_key(s2, key));
    assert forall|k: int| 0 <= k < s2.len() implies !#[trigger] blocked(
        s2[k],
        key,
        frontier(relayout(s2.take(k), key, sh)),
    ) by {
        let pre = s2.take(k);
        assert(ordered(pre));
        assert forall|m: int|
            0 <= m < pre.len() && #[trigger] pre[m].key == key implies pre[m].shape == sh
            && pre[m].used == sh.size() && pre[m].used <= pre[m].size by {
            assert(s2[m].key == key);
            lemma_position_unique(s2, key, m);
        }
        lemma_relayout_unchanged(pre, key, sh);
        if k > 0 {
            assert(end(s2[k - 1]) <= s2[k].offset);
        }
        if s2[k].key == key {
            lemma_position_unique(s2, key, k);
        }
    }
    if s2.len() > 0 {
        assert(end(s[s.len() - 1]) <= v.len);
    }
}

/// Compaction keeps the length of the table and the key of every position,
/// and keeps or drops the handle of every position.
pub proof fn lemma_compact_keys(u: Seq<Allocation>, f: int)
    ensures
        compact(u, f).len() == u.len(),
        forall|k: int| 0 <= k < u.len() ==> #[trigger] compact(u, f)[k].key == u[k].key,
        forall|k: int|
            0 <= k < u.len() ==> (#[trigger] compact(u, f)[k].buffer) is None || compact(u, f)[k].buffer
                == u[k].buffer,
    decreases u.len(),
{
    if u.len() > 0 && u[0].free {
        let off = crate::shape::align4(f);
        let c = compact(u, f);
        lemma_compact_keys(u.drop_first(), off + u[0].size);
        assert forall|k: int| 0 <= k < u.len() implies #[trigger] c[k].key == u[k].key && (
        c[k].buffer is None || c[k].buffer == u[k].buffer) by {
            if k > 0 {
                assert(u.drop_first()[k - 1] == u[k]);
                assert(c[k] == compact(u.drop_first(), off + u[0].size)[k - 1]);
            }
        }
    }
}

/// A handle that compaction reports as invalidated was held, at the same
/// position, by an allocation that compaction leaves without a handle.
pub proof fn lemma_compact_dropped_source(u: Seq<Allocation>, f: int, h: u64)
    requires
        compact_dropped(u, f).contains(h),
    ensures
        exists|k: int|
            0 <= k < u.len() && u[k].buffer == Some(h) && (#[trigger] compact(u, f)[k]).buffer is None,
    decreases u.len(),
{
    if u.len() == 0 || !u[0].free {
        assert(compact_dropped(u, f).len() == 0);
    }
    let off = crate::shape::align4(f);
    let w = u.drop_first();
    let rest = compact_dropped(w, off + u[0].size);
    let c = compact(u, f);
    assert(c == seq![c[0]] + compact(w, off + u[0].size));
    if u[0].buffer is Some && off != u[0].offset && u[0].buffer == Some(h) {
        assert(c[0].buffer is None);
    } else {
        if u[0].buffer is Some && off != u[0].offset {
            assert(compact_dropped(u, f) == seq![u[0].buffer.unwrap()] + rest);
            assert(rest.contains(h)) by {
                let i = choose|i: int| 0 <= i < compact_dropped(u, f).len() && compact_dropped(u, f)[i] == h;
                assert(rest[i - 1] == h);
            }
        } else {
            assert(compact_dropped(u, f) == rest);
        }
        lemma_compact_dropped_source(w, off + u[0].size, h);
        let k = choose|k: int|
            0 <= k < w.len() && w[k].buffer == Some(h) && (#[trigger] compact(w, off + u[0].size)[k]).buffer
                is None;
        lemma_compact_keys(w, off + u[0].size);
        assert(c[k + 1] == compact(w, off + u[0].size)[k]);
        assert(u[k + 1] == w[k]);
    }
}

/// A handle that a request reports as invalidated was held, at the same
/// position, by an allocation the laid-out table leaves without a handle.
pub proof fn lemma_dropped_source(s: Seq<Allocation>, t: Seq<Allocation>, h: u64)
    requires
        dropped(s, t).contains(h),
    ensures
        exists|k: int| 0 <= k < s.len() && s[k].buffer == Some(h) && (#[trigger] t[k]).buffer is None,
    decreases s.len(),
{
    let k = s.len() - 1;
    let rest = dropped(s.drop_last(), t);
    if s[k].buffer is Some && t[k].buffer is None && s[k].buffer == Some(h) {
        assert(t[k].buffer is None);
    } else {
        if s[k].buffer is Some && t[k].buffer is None {
            assert(dropped(s, t) == rest.push(s[k].buffer.unwrap()));
            assert(rest.contains(h)) by {
                let i = choose|i: int| 0 <= i < dropped(s, t).len() && dropped(s, t)[i] == h;
                assert(rest[i] == h);
            }
        }
        lemma_dropped_source(s.drop_last(), t, h);
        let m = choose|m: int| 0 <= m < s.drop_last().len() && s.drop_last()[m].buffer == Some(h) && (
        #[trigger] t[m]).buffer is None;
        assert(s[m] == s.drop_last()[m]);
    }
}

/// A release of a handle that no allocation holds, such as one invalidated
/// earlier, changes nothing.
pub proof fn lemma_stale_release_unchanged(t: Seq<Allocation>, h: u64)
    requires
        forall|k: int| 0 <= k < t.len() ==> (#[trigger] t[k]).buffer != Some(h),
    ensures
        released(t, h) == t,
{
    assert(released(t, h) =~= t);
}

/// A handle that a successful request invalidates is held by no allocation
/// afterwards, so a late release of it changes nothing: in particular it
/// cannot free the allocation's new, busy handle.
pub proof fn lemma_request_retires(v: PoolView, key: u64, sh: BufferShape, h: u64)
    requires
        pool_wf(v),
        !in_use(v.list, key, sh),
        frontier(table_after(v.list, key, sh)) <= v.len,
        !handles_exhausted(v, key, sh),
        dropped(v.list, table_after(v.list, key, sh)).contains(h),
    ensures
        forall|k: int|
            0 <= k < committed(v, key, sh).list.len() ==> (#[trigger] committed(v, key, sh).list[k]).buffer
                != Some(h),
        released(committed(v, key, sh).list, h) == committed(v, key, sh).list,
{
    let s = v.list;
    let t = table_after(s, key, sh);
    let c = committed(v, key, sh).list;
    lemma_relayout_shape(s, key, sh);
    if has_key(s, key) {
        let k = choose|k: int| 0 <= k < s.len() && #[trigger] s[k].key == key;
        assert(t[k].key == key);
    } else {
        assert(t[t.len() - 1].key == key);
    }
    lemma_position(t, key);
    let p = position(t, key);
    lemma_dropped_source(s, t, h);
    let k0 = choose|k: int| 0 <= k < s.len() && s[k].buffer == Some(h) && (#[trigger] t[k]).buffer is None;
    assert(s[k0].buffer is Some);
    assert(h < v.next_handle);
    assert forall|k: int| 0 <= k < c.len() implies (#[trigger] c[k]).buffer != Some(h) by {
        if k < s.len() {
            assert(t[k] == relayout(s, key, sh)[k]);
            assert(relayout(s, key, sh)[k].key == s[k].key);
        }
        if k == p {
            if t[p].buffer is Some {
                if p < s.len() {
                    assert(t[p].buffer == s[p].buffer);
                    assert(p != k0);
                    assert(s[p].buffer != s[k0].buffer);
                }
            }
        } else if k < s.len() {
            assert(c[k] == t[k]);
            if t[k].buffer is Some {
                assert(t[k].buffer == s[k].buffer);
                assert(k != k0);
                assert(s[k0].buffer != s[k].buffer);
            }
        } else {
            assert(c[k] == t[k]);
        }
    }
    lemma_stale_release_unchanged(c, h);
}

/// A handle that `remove` reports for destruction is held by no allocation
/// afterwards, so a late release of it changes nothing.
pub proof fn lemma_remove_retires(v: PoolView, key: u64, h: u64)
    requires
        pool_wf(v),
        has_key(v.list, key),
        removed_handles(v.list, position(v.list, key)).contains(h),
    ensures
        ({
            let s2 = removed(v.list, position(v.list, key));
            &&& forall|k: int| 0 <= k < s2.len() ==> (#[trigger] s2[k]).buffer != Some(h)
            &&& released(s2, h) == s2
        }),
{
    let s = v.list;
    lemma_position(s, key);
    let p = position(s, key);
    let u = s.skip(p + 1);
    let f = s[p].offset as int;
    let c = compact(u, f);
    let s2 = removed(s, p);
    lemma_compact_keys(u, f);
    let own: Seq<u64> = if s[p].buffer is Some { seq![s[p].buffer.unwrap()] } else { seq![] };
    let i = choose|i: int| 0 <= i < removed_handles(s, p).len() && removed_handles(s, p)[i] == h;
    // h is the removed allocation's own handle or one that compaction dropped
    let k0: int = if i < own.len() {
        p
    } else {
        assert(compact_dropped(u, f)[i - own.len()] == h);
        assert(compact_dropped(u, f).contains(h));
        lemma_compact_dropped_source(u, f, h);
        let k = choose|k: int| 0 <= k < u.len() && u[k].buffer == Some(h) && (#[trigger] c[k]).buffer is None;
        k + p + 1
    };
    assert(s[k0].buffer == Some(h));
    assert forall|k: int| 0 <= k < s2.len() implies (#[trigger] s2[k]).buffer != Some(h) by {
        if k < p {
            assert(s2[k] == s[k]);
            assert(s[k].buffer != s[k0].buffer);
        } else {
            assert(s2[k] == c[k - p]);
            assert(u[k - p] == s[k + 1]);
            if c[k - p].buffer is Some {
                if k + 1 != k0 {
                    assert(s[k + 1].buffer != s[k0].buffer);
                }
            }
        }
    }
    lemma_stale_release_unchanged(s2, h);
}

/// Once `remove(key)` has removed the key's allocation, a request for the key
/// starts from scratch: the key is gone from the table, the request appends a
/// new allocation, and that allocation has no handle, so a fresh one is
/// created rather than a stale one reused.
pub proof fn lemma_remove_then_request_fresh(v: PoolView, key: u64, sh: BufferShape)
    requires
        pool_wf(v),
        has_key(v.list, key),
    ensures
        ({
            let s2 = removed(v.list, position(v.list, key));
            let t = table_after(s2, key, sh);
            &&& !has_key(s2, key)
            &&& position(t, key) == t.len() - 1
            &&& t[t.len() - 1] == appended(relayout(s2, key, sh), key, sh)
            &&& t[position(t, key)].buffer is None
        }),
        ({
            let s = v.list;
            let p = position(s, key);
            let s2 = removed(s, p);
            let c = committed(PoolView { list: s2, ..v }, key, sh).list;
            &&& c[c.len() - 1].key == key
            &&& c[c.len() - 1].buffer == Some(v.next_handle as u64)
            &&& s[p].buffer is Some ==> s[p].buffer.unwrap() < v.next_handle
            &&& s[p].buffer is Some ==> released(c, s[p].buffer.unwrap()) == c
        }),
{
    let s = v.list;
    lemma_position(s, key);
    let p = position(s, key);
    let u = s.skip(p + 1);
    let s2 = removed(s, p);
    lemma_compact_keys(u, s[p].offset as int);
    assert(s2.len() == s.len() - 1);
    if has_key(s2, key) {
        let k = choose|k: int| 0 <= k < s2.len() && #[trigger] s2[k].key == key;
        if k < p {
            assert(s[k].key == key);
        } else {
            assert(compact(u, s[p].offset as int)[k - p].key == u[k - p].key);
            assert(s[k + 1].key == key);
        }
    }
    lemma_relayout_shape(s2, key, sh);
    let t = table_after(s2, key, sh);
    let c = committed(PoolView { list: s2, ..v }, key, sh).list;
    assert(t[t.len() - 1].key == key);
    assert(position(t, key) == t.len() - 1);
    if s[p].buffer is Some {
        let h0 = s[p].buffer.unwrap();
        assert(s[p].buffer is Some);
        assert(removed_handles(s, p)[0] == h0);
        assert(removed_handles(s, p).contains(h0));
        lemma_remove_retires(v, key, h0);
        assert forall|k: int| 0 <= k < c.len() implies (#[trigger] c[k]).buffer != Some(h0) by {
            if k < s2.len() {
                assert(c[k] == relayout(s2, key, sh)[k]);
                assert(relayout(s2, key, sh)[k].key == s2[k].key);
                assert(s2[k].buffer != Some(h0));
            }
        }
        lemma_stale_release_unchanged(c, h0);
    }
}

/// With every allocation free, compaction from `f` ends no later than `f`
/// plus the capacities moved, with at most three bytes of alignment each.
pub proof fn lemma_compact_bound(u: Seq<Allocation>, f: int)
    requires
        f >= 0,
        forall|k: int| 0 <= k < u.len() ==> #[trigger] u[k].free,
        u.len() > 0,
    ensures
        frontier(compact(u, f)) <= f + total_size(u) + 3 * u.len(),
    decreases u.len(),
{
    let off = crate::shape::align4(f);
    crate::shape::lemma_align4_up(f);
    let w = u.drop_first();
    assert(u[0].free);
    if w.len() > 0 {
        assert forall|k: int| 0 <= k < w.len() implies #[trigger] w[k].free by {
            assert(u[k + 1].free);
        }
        lemma_compact_bound(w, off + u[0].size);
        lemma_compact_keys(w, off + u[0].size);
        let c = compact(w, off + u[0].size);
        let whole = compact(u, f);
        assert(whole == seq![whole[0]] + c);
        assert(whole[whole.len() - 1] == c[c.len() - 1]);
        assert(total_size(u) == u[0].size + total_size(w));
    } else {
        let whole = compact(u, f);
        assert(compact(w, off + u[0].size).len() == 0);
        assert(whole == seq![whole[0]] + compact(w, off + u[0].size));
        assert(whole.len() == 1);
        assert(total_size(w) == 0);
        assert(total_size(u) == u[0].size + total_size(w));
    }
}

/// In an ordered table the last allocation ends at least the sum of all
/// capacities past the first offset.
pub proof fn lemma_span(u: Seq<Allocation>)
    requires
        ordered(u),
        u.len() > 0,
    ensures
        frontier(u) >= u[0].offset + total_size(u),
    decreases u.len(),
{
    let w = u.drop_first();
    if w.len() > 0 {
        assert(ordered(w)) by {
            assert forall|i: int, j: int| 0 <= i < j < w.len() implies #[trigger] end(w[i])
                <= #[trigger] w[j].offset by {
                assert(end(u[i + 1]) <= u[j + 1].offset);
            }
        }
        lemma_span(w);
        assert(end(u[0]) <= u[1].offset);
        assert(w[0] == u[1]);
        assert(w.last() == u.last());
        assert(total_size(u) == u[0].size + total_size(w));
    } else {
        assert(u.last() == u[0]);
        assert(total_size(w) == 0);
        assert(total_size(u) == u[0].size + total_size(w));
    }
}

/// Compaction reclaims the gap: removing an allocation that has only free
/// allocations behind it moves the end of the table back by the removed
/// capacity, up to three bytes of alignment per moved allocation.
pub proof fn lemma_remove_reclaims(v: PoolView, key: u64)
    requires
        pool_wf(v),
        has_key(v.list, key),
        position(v.list, key) < v.list.len() - 1,
        forall|k: int| position(v.list, key) < k < v.list.len() ==> #[trigger] v.list[k].free,
    ensures
        ({
            let s = v.list;
            let p = position(s, key);
            frontier(removed(s, p)) + s[p].size <= frontier(s) + 3 * (s.len() - p - 1)
        }),
{
    let s = v.list;
    lemma_position(s, key);
    let p = position(s, key);
    let u = s.skip(p + 1);
    assert forall|k: int| 0 <= k < u.len() implies #[trigger] u[k].free by {
        assert(s[p + 1 + k].free);
    }
    lemma_compact_bound(u, s[p].offset as int);
    lemma_compact_keys(u, s[p].offset as int);
    assert(ordered(u)) by {
        assert forall|i: int, j: int| 0 <= i < j < u.len() implies #[trigger] end(u[i])
            <= #[trigger] u[j].offset by {
            assert(end(s[p + 1 + i]) <= s[p + 1 + j].offset);
        }
    }
    lemma_span(u);
    assert(end(s[p]) <= s[p + 1].offset);
    let c = compact(u, s[p].offset as int);
    assert((s.take(p) + c).last() == c.last());
    assert(u.last() == s.last());
}

/// Compaction keeps the region from leaking: after removing an allocation
/// that has only free allocations behind it, a request for a new key needs a
/// region shorter than the old table's end by the removed capacity, up to the
/// new buffer with its five percent, the padding after the last allocation and
/// three bytes of alignment per allocation moved or placed.
pub proof fn lemma_remove_then_new_key_growth(v: PoolView, key: u64, knew: u64, sh: BufferShape)
    requires
        pool_wf(v),
        has_key(v.list, key),
        position(v.list, key) < v.list.len() - 1,
        forall|k: int| position(v.list, key) < k < v.list.len() ==> #[trigger] v.list[k].free,
        pool_wf(PoolView { list: removed(v.list, position(v.list, key)), ..v }),
        !has_key(removed(v.list, position(v.list, key)), knew),
    ensures
        ({
            let s = v.list;
            let p = position(s, key);
            let s2 = removed(s, p);
            let t = table_after(s2, knew, sh);
            &&& s2.len() > 0
            &&& grow_len(t, knew) + s[p].size <= frontier(s) + 3 * (s.len() - p) + s2.last().size / 20
                + sh.size() + sh.size() / 20
        }),
{
    let s = v.list;
    lemma_position(s, key);
    let p = position(s, key);
    let s2 = removed(s, p);
    lemma_compact_keys(s.skip(p + 1), s[p].offset as int);
    assert(s2.len() == s.len() - 1);
    lemma_remove_reclaims(v, key);
    lemma_relayout_unchanged(s2, knew, sh);
    let t = table_after(s2, knew, sh);
    assert(t == s2.push(appended(s2, knew, sh)));
    assert(position(t, knew) == t.len() - 1);
    crate::shape::lemma_align4_up(frontier(s2) + s2.last().size / 20);
    assert(t.last() == appended(s2, knew, sh));
}

} // verus!
