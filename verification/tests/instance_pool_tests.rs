use plutonium_engine::instance_pool::{capacity_for, InstanceBufferPool, SlotChoice};

#[test]
fn capacity_is_next_power_of_two_at_least_256() {
    assert_eq!(capacity_for(0), 256);
    assert_eq!(capacity_for(1), 256);
    assert_eq!(capacity_for(256), 256);
    assert_eq!(capacity_for(257), 512);
    assert_eq!(capacity_for(1000), 1024);
    assert_eq!(capacity_for(1 << 63), 1 << 63);
}

#[test]
fn free_large_enough_buffers_are_reused_first() {
    let mut pool: InstanceBufferPool<&str> = InstanceBufferPool::new();
    assert_eq!(pool.select_slot(100), SlotChoice::Allocate(256));
    assert_eq!(pool.add_slot(256, 1, "a"), 0);
    assert_eq!(pool.add_slot(1024, 1, "b"), 1);
    assert_eq!(pool.select_slot(100), SlotChoice::Reuse(0));
    pool.mark_used(0, 2);
    assert_eq!(pool.select_slot(100), SlotChoice::Reuse(1));
    assert_eq!(pool.select_slot(2000), SlotChoice::Allocate(2048));
    pool.mark_used(1, 2);
    assert_eq!(pool.select_slot(10), SlotChoice::Allocate(256));
    pool.reset_usage();
    assert_eq!(pool.select_slot(10), SlotChoice::Reuse(0));
    assert_eq!(*pool.buffer(1), "b");
    assert_eq!(pool.slot(0).last_used_frame, 2);
    assert!(!pool.slot(1).used_this_frame);
}

#[test]
fn eviction_drops_stale_buffers_then_least_recent() {
    let mut pool: InstanceBufferPool<u32> = InstanceBufferPool::new();
    pool.add_slot(256, 10, 0);
    pool.add_slot(256, 95, 1);
    pool.add_slot(256, 99, 2);
    pool.add_slot(256, 97, 3);
    pool.add_slot(256, 95, 4);

    pool.evict(100, 10, 60);
    assert_eq!(pool.len(), 5);

    pool.evict(100, 4, 60);
    assert_eq!(pool.len(), 4);
    let kept: Vec<u32> = (0..pool.len()).map(|i| *pool.buffer(i)).collect();
    assert_eq!(kept, vec![1, 2, 3, 4]);

    pool.evict(100, 2, 60);
    let kept: Vec<u32> = (0..pool.len()).map(|i| *pool.buffer(i)).collect();
    assert_eq!(kept, vec![1, 4]);
}
