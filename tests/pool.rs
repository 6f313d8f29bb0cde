use multipool::pool::{BufferAccessError, BufferSlot, CreateOutcome, MultiPool, ResizeOutcome};
use multipool::shape::{align_up4, check_shape, BufferShape};
use multipool::surface::{largest_scale_factor, next_scale_factor};

const ARGB: u32 = 0;

/// Requests a buffer, growing the recorded region as often as the pool asks.
fn ready(pool: &mut MultiPool, w: u32, h: u32, bpp: u32, key: u64) -> BufferSlot {
    loop {
        match pool.create_buffer(w, h, bpp, key, ARGB) {
            Ok(CreateOutcome::Ready(slot)) => return slot,
            Ok(CreateOutcome::Grow(n)) => pool.resize(n).unwrap(),
            Err(e) => panic!("request failed: {:?}", e),
        }
    }
}

#[test]
fn scenario_two_buffers_then_in_place_reuse() {
    let mut pool = MultiPool::new();
    assert_eq!(pool.len(), 0);
    match pool.create_buffer(100, 100, 4, 1, ARGB) {
        Ok(CreateOutcome::Grow(n)) => assert_eq!(n, 42000),
        other => panic!("expected growth, got {:?}", other),
    }
    assert_eq!(pool.len(), 0);
    pool.resize(42000).unwrap();
    let a = ready(&mut pool, 100, 100, 4, 1);
    assert_eq!(a.offset, 0);
    assert_eq!(a.size, 40000);
    assert!(a.created);
    assert!(a.retired.is_empty());
    assert!(pool.len() >= 42000);

    match pool.create_buffer(100, 100, 4, 2, ARGB) {
        Ok(CreateOutcome::Grow(n)) => assert_eq!(n, 84000),
        other => panic!("expected growth, got {:?}", other),
    }
    pool.resize(84000).unwrap();
    let b = ready(&mut pool, 100, 100, 4, 2);
    assert_eq!(b.offset, 42000);
    assert_ne!(b.handle, a.handle);
    let first = pool.allocation(1).unwrap();
    assert_eq!(first.offset, 0);
    assert_eq!(first.size, 40000);
    assert!(!first.free);

    pool.release(a.handle);
    let again = ready(&mut pool, 50, 50, 4, 1);
    assert_eq!(again.offset, 0);
    assert_eq!(again.size, 10000);
    assert!(again.created);
    assert_eq!(again.retired, vec![a.handle]);
    let alloc = pool.allocation(1).unwrap();
    assert_eq!(alloc.used, 10000);
    assert_eq!(alloc.size, 40000);
    assert_eq!(pool.allocation(2).unwrap().offset, 42000);
    assert_eq!(pool.len(), 84000);
}

#[test]
fn repeated_request_while_busy_is_in_use() {
    let mut pool = MultiPool::new();
    let a = ready(&mut pool, 10, 10, 4, 7);
    let before = pool.allocation(7).unwrap();
    let len = pool.len();
    let r = pool.create_buffer(10, 10, 4, 7, ARGB);
    assert!(matches!(r, Err(BufferAccessError::InUse)));
    let after = pool.allocation(7).unwrap();
    assert_eq!(after.offset, before.offset);
    assert_eq!(after.size, before.size);
    assert_eq!(after.buffer, Some(a.handle));
    assert!(!after.free);
    assert_eq!(pool.len(), len);
}

#[test]
fn release_then_request_reuses_without_growth() {
    let mut pool = MultiPool::new();
    let a = ready(&mut pool, 10, 7, 4, 3);
    let len = pool.len();
    pool.release(a.handle);
    match pool.create_buffer(10, 7, 4, 3, ARGB) {
        Ok(CreateOutcome::Ready(slot)) => {
            assert_eq!(slot.offset, a.offset);
            assert_eq!(slot.handle, a.handle);
            assert!(!slot.created);
            assert!(slot.retired.is_empty());
        }
        other => panic!("expected a ready buffer, got {:?}", other),
    }
    assert_eq!(pool.len(), len);
}

#[test]
fn release_then_acquire_succeeds() {
    let mut pool = MultiPool::new();
    let a = ready(&mut pool, 10, 10, 4, 3);
    assert_eq!(pool.acquire_buffer(3), Err(BufferAccessError::InUse));
    pool.release(a.handle);
    assert_eq!(pool.acquire_buffer(3), Ok((a.offset, 400)));
    assert!(!pool.allocation(3).unwrap().free);
    assert_eq!(pool.acquire_buffer(3), Err(BufferAccessError::InUse));
}

#[test]
fn acquire_unknown_key_is_invalid() {
    let mut pool = MultiPool::new();
    assert_eq!(pool.acquire_buffer(9), Err(BufferAccessError::InvalidKey));
}

#[test]
fn oversized_shape_is_invalid_and_changes_nothing() {
    let mut pool = MultiPool::new();
    let a = ready(&mut pool, 10, 10, 4, 1);
    pool.release(a.handle);
    let len = pool.len();
    // stride * height = 2.5e9 exceeds the signed 32-bit limit
    let r = pool.create_buffer(50000, 50000, 1, 1, ARGB);
    assert!(matches!(r, Err(BufferAccessError::InvalidShape)));
    // stride * height overflows 32 bits
    let r = pool.create_buffer(0x10000, 0x10000, 1, 2, ARGB);
    assert!(matches!(r, Err(BufferAccessError::InvalidShape)));
    let r = pool.create_buffer(0x8000_0000, 1, 1, 2, ARGB);
    assert!(matches!(r, Err(BufferAccessError::InvalidShape)));
    let alloc = pool.allocation(1).unwrap();
    assert!(alloc.free);
    assert_eq!(alloc.used, 400);
    assert!(pool.allocation(2).is_none());
    assert_eq!(pool.len(), len);
}

#[test]
fn shape_checks() {
    assert_eq!(
        check_shape(100, 50, 4, 1),
        Some(BufferShape { width: 100, height: 50, stride: 400, format: 1 })
    );
    assert_eq!(check_shape(1, 1, 0, 0), None);
    assert_eq!(check_shape(0x8000_0000, 1, 1, 0), None);
    assert_eq!(check_shape(1, 0x8000_0000, 1, 0), None);
    assert_eq!(check_shape(1, 1, 0x8000_0000, 0), None);
    assert_eq!(check_shape(0x4000_0000, 1, 2, 0), None);
    assert_eq!(check_shape(0x7fff_ffff, 1, 1, 0).map(|s| s.stride), Some(0x7fff_ffff));
    assert_eq!(check_shape(0, 10, 4, 0).map(|s| s.stride), Some(0));
}

#[test]
fn rounding_to_four() {
    assert_eq!(align_up4(0), 0);
    assert_eq!(align_up4(1), 4);
    assert_eq!(align_up4(42000), 42000);
    assert_eq!(align_up4(42001), 42004);
}

#[test]
fn remove_then_request_is_fresh() {
    let mut pool = MultiPool::new();
    let a = ready(&mut pool, 10, 10, 4, 5);
    assert_eq!(pool.remove(5), Ok(vec![a.handle]));
    assert!(pool.allocation(5).is_none());
    let b = ready(&mut pool, 10, 10, 4, 5);
    assert!(b.created);
    assert_ne!(b.handle, a.handle);
    assert!(pool.allocation(5).unwrap().buffer == Some(b.handle));
}

#[test]
fn remove_unknown_key_is_invalid() {
    let mut pool = MultiPool::new();
    assert_eq!(pool.remove(1), Err(BufferAccessError::InvalidKey));
}

#[test]
fn remove_compacts_free_allocations() {
    let mut pool = MultiPool::new();
    let a = ready(&mut pool, 100, 100, 4, 1);
    let b = ready(&mut pool, 100, 100, 4, 2);
    let c = ready(&mut pool, 100, 100, 4, 3);
    assert_eq!((a.offset, b.offset, c.offset), (0, 42000, 84000));
    let len = pool.len();
    assert_eq!(len, 126000);
    pool.release(b.handle);
    pool.release(c.handle);
    assert_eq!(pool.remove(2), Ok(vec![b.handle, c.handle]));
    assert_eq!(pool.allocation(3).unwrap().offset, 42000);
    assert_eq!(pool.allocation(3).unwrap().buffer, None);
    match pool.create_buffer(100, 100, 4, 4, ARGB) {
        Ok(CreateOutcome::Ready(d)) => assert_eq!(d.offset, 84000),
        other => panic!("expected a ready buffer, got {:?}", other),
    }
    assert_eq!(pool.len(), len);
}

#[test]
fn remove_stops_at_busy_allocation() {
    let mut pool = MultiPool::new();
    let _a = ready(&mut pool, 100, 100, 4, 1);
    let b = ready(&mut pool, 100, 100, 4, 2);
    let c = ready(&mut pool, 100, 100, 4, 3);
    pool.release(b.handle);
    assert_eq!(pool.remove(2), Ok(vec![b.handle]));
    let third = pool.allocation(3).unwrap();
    assert_eq!(third.offset, c.offset as u64);
    assert_eq!(third.buffer, Some(c.handle));
}

#[test]
fn growing_a_buffer_pushes_free_followers() {
    let mut pool = MultiPool::new();
    let a = ready(&mut pool, 10, 10, 4, 1);
    let b = ready(&mut pool, 10, 10, 4, 2);
    assert_eq!((a.offset, b.offset), (0, 420));
    pool.release(a.handle);
    pool.release(b.handle);
    let bigger = ready(&mut pool, 20, 10, 4, 1);
    assert_eq!(bigger.offset, 0);
    assert_eq!(bigger.retired, vec![a.handle, b.handle]);
    assert_eq!(pool.allocation(1).unwrap().size, 840);
    assert_eq!(pool.allocation(2).unwrap().offset, 840);
}

#[test]
fn growing_a_buffer_before_a_busy_one_is_in_use() {
    let mut pool = MultiPool::new();
    let a = ready(&mut pool, 10, 10, 4, 1);
    let _b = ready(&mut pool, 10, 10, 4, 2);
    pool.release(a.handle);
    let r = pool.create_buffer(20, 10, 4, 1, ARGB);
    assert!(matches!(r, Err(BufferAccessError::InUse)));
    assert_eq!(pool.allocation(1).unwrap().size, 400);
    assert!(pool.allocation(1).unwrap().free);
}

#[test]
fn region_beyond_protocol_limit_is_out_of_memory() {
    let mut pool = MultiPool::new();
    let r = pool.create_buffer(0x7fff_0000, 1, 1, 1, ARGB);
    assert!(matches!(r, Err(BufferAccessError::OutOfMemory)));
    assert!(pool.allocation(1).is_none());
}

#[test]
fn resize_only_grows() {
    let mut pool = MultiPool::new();
    assert_eq!(pool.resize(100), Ok(()));
    assert_eq!(pool.resize(50), Ok(()));
    assert_eq!(pool.len(), 100);
    assert_eq!(pool.resize(0x8000_0000), Err(BufferAccessError::OutOfMemory));
    assert_eq!(pool.len(), 100);
}

#[test]
fn stale_release_changes_nothing() {
    let mut pool = MultiPool::new();
    let a = ready(&mut pool, 10, 10, 4, 1);
    pool.release(a.handle);
    let b = ready(&mut pool, 20, 10, 4, 1);
    assert_ne!(a.handle, b.handle);
    pool.release(a.handle);
    assert!(!pool.allocation(1).unwrap().free);
    pool.release(b.handle);
    assert!(pool.allocation(1).unwrap().free);
}

#[test]
fn scale_factor_is_the_largest() {
    assert_eq!(largest_scale_factor(&vec![]), None);
    assert_eq!(largest_scale_factor(&vec![1, 3, 2]), Some(3));
    assert_eq!(largest_scale_factor(&vec![-2, -5]), Some(-2));
    assert_eq!(next_scale_factor(2, &vec![]), (2, false));
    assert_eq!(next_scale_factor(1, &vec![1, 2]), (2, true));
    assert_eq!(next_scale_factor(2, &vec![1, 2]), (2, false));
}

#[test]
fn resize_buffer_errors() {
    let mut pool = MultiPool::new();
    assert!(matches!(pool.resize_buffer(1, 10, 40, 10), Err(BufferAccessError::InvalidKey)));
    let a = ready(&mut pool, 10, 10, 4, 1);
    assert!(matches!(pool.resize_buffer(1, 10, 40, 10), Err(BufferAccessError::InUse)));
    pool.release(a.handle);
    assert!(matches!(pool.resize_buffer(1, 50, 40, 10), Err(BufferAccessError::InvalidShape)));
    assert!(matches!(pool.resize_buffer(1, -1, 40, 10), Err(BufferAccessError::InvalidShape)));
    assert!(matches!(pool.resize_buffer(1, 10, 40, -1), Err(BufferAccessError::InvalidShape)));
    assert!(matches!(
        pool.resize_buffer(1, 10, 0x10000, 0x10000),
        Err(BufferAccessError::InvalidShape)
    ));
    let alloc = pool.allocation(1).unwrap();
    assert_eq!(alloc.used, 400);
    assert_eq!(alloc.buffer, Some(a.handle));
}

#[test]
fn resize_buffer_same_shape_keeps_handle() {
    let mut pool = MultiPool::new();
    let a = ready(&mut pool, 10, 10, 4, 1);
    pool.release(a.handle);
    match pool.resize_buffer(1, 10, 40, 10) {
        Ok(ResizeOutcome::Done(retired)) => assert!(retired.is_empty()),
        other => panic!("expected a reshaped buffer, got {:?}", other),
    }
    let alloc = pool.allocation(1).unwrap();
    assert_eq!(alloc.buffer, Some(a.handle));
    assert!(alloc.free);
}

#[test]
fn resize_buffer_grows_in_place_and_pushes_followers() {
    let mut pool = MultiPool::new();
    let a = ready(&mut pool, 10, 10, 4, 1);
    let b = ready(&mut pool, 10, 10, 4, 2);
    pool.release(a.handle);
    pool.release(b.handle);
    match pool.resize_buffer(1, 20, 80, 10) {
        Ok(ResizeOutcome::Grow(n)) => {
            assert_eq!(n, 1240);
            pool.resize(n).unwrap();
        }
        other => panic!("expected growth, got {:?}", other),
    }
    match pool.resize_buffer(1, 20, 80, 10) {
        Ok(ResizeOutcome::Done(retired)) => assert_eq!(retired, vec![a.handle, b.handle]),
        other => panic!("expected a reshaped buffer, got {:?}", other),
    }
    let first = pool.allocation(1).unwrap();
    assert_eq!((first.offset, first.size, first.used), (0, 840, 800));
    assert_eq!(first.buffer, None);
    assert!(first.free);
    assert_eq!(pool.allocation(2).unwrap().offset, 840);
    match pool.create_buffer(20, 10, 4, 1, ARGB) {
        Ok(CreateOutcome::Ready(slot)) => {
            assert!(slot.created);
            assert_eq!(slot.offset, 0);
        }
        other => panic!("expected a ready buffer, got {:?}", other),
    }
}

#[test]
fn resize_buffer_busy_is_in_use_before_shape() {
    let mut pool = MultiPool::new();
    let a = ready(&mut pool, 10, 10, 4, 1);
    assert!(matches!(pool.resize_buffer(1, -1, 40, 10), Err(BufferAccessError::InUse)));
    assert!(matches!(pool.resize_buffer(1, 50, 40, 10), Err(BufferAccessError::InUse)));
    assert_eq!(pool.allocation(1).unwrap().buffer, Some(a.handle));
}

#[test]
fn resize_buffer_same_byte_size_changes_nothing() {
    let mut pool = MultiPool::new();
    let a = ready(&mut pool, 10, 10, 4, 1);
    pool.release(a.handle);
    match pool.resize_buffer(1, 20, 80, 5) {
        Ok(ResizeOutcome::Done(retired)) => assert!(retired.is_empty()),
        other => panic!("expected no change, got {:?}", other),
    }
    let alloc = pool.allocation(1).unwrap();
    assert_eq!(alloc.buffer, Some(a.handle));
    assert_eq!(alloc.shape.width, 10);
    assert_eq!(alloc.shape.stride, 40);
    assert_eq!(alloc.used, 400);
}

#[test]
fn late_release_of_retired_handle_keeps_new_buffer_busy() {
    let mut pool = MultiPool::new();
    let a = ready(&mut pool, 10, 10, 4, 1);
    assert_eq!(pool.remove(1), Ok(vec![a.handle]));
    let b = ready(&mut pool, 10, 10, 4, 1);
    assert_ne!(b.handle, a.handle);
    pool.release(a.handle);
    assert!(!pool.allocation(1).unwrap().free);
    assert!(matches!(pool.create_buffer(10, 10, 4, 1, ARGB), Err(BufferAccessError::InUse)));
}

#[test]
fn new_key_after_removal_reuses_the_gap() {
    let mut pool = MultiPool::new();
    let a = ready(&mut pool, 10, 10, 4, 1);
    let b = ready(&mut pool, 10, 10, 4, 2);
    let c = ready(&mut pool, 10, 10, 4, 3);
    let len = pool.len();
    pool.release(a.handle);
    pool.release(b.handle);
    pool.release(c.handle);
    for _ in 0..5 {
        assert!(pool.remove(2).is_ok());
        let again = ready(&mut pool, 10, 10, 4, 2);
        pool.release(again.handle);
    }
    assert_eq!(pool.len(), len);
}
