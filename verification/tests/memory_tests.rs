use luna::memory::{allocate, cleanup_all, deallocate, get_current_usage, get_image_buffer, get_stats, init, return_image_buffer, MemoryConfig, MemoryManager};

#[test]
fn test_memory_allocation() {
    let mut manager = MemoryManager::new();
    init(&mut manager, MemoryConfig::default_config()).unwrap();
    let allocation_id = allocate(&mut manager, 1000, "test").unwrap();
    assert!(allocation_id > 0);
    deallocate(&mut manager, allocation_id).unwrap();
}

#[test]
fn test_memory_limit() {
    let mut manager = MemoryManager::new();
    let mut config = MemoryConfig::default_config();
    config.max_total_memory = 1000;
    init(&mut manager, config).unwrap();
    let result = allocate(&mut manager, 2000, "test");
    assert!(result.is_err());
}

#[test]
fn test_buffer_pool() {
    let mut manager = MemoryManager::new();
    init(&mut manager, MemoryConfig::default_config()).unwrap();
    let buffer1 = get_image_buffer(&mut manager, 500_000);
    assert_eq!(buffer1.len(), 500_000);
    return_image_buffer(&mut manager, buffer1);
    let buffer2 = get_image_buffer(&mut manager, 500_000);
    assert_eq!(buffer2.len(), 500_000);
}

#[test]
fn test_memory_stats() {
    let mut manager = MemoryManager::new();
    init(&mut manager, MemoryConfig::default_config()).unwrap();
    let stats = get_stats(&manager);
    assert!(stats.system_available > 0);
}

#[test]
fn allocate_then_free_restores_usage() {
    let mut manager = MemoryManager::new();
    let a = allocate(&mut manager, 300, "vision").unwrap();
    let b = allocate(&mut manager, 200, "vision").unwrap();
    assert_ne!(a, b);
    assert_eq!(get_current_usage(&manager), 500);
    deallocate(&mut manager, a).unwrap();
    assert_eq!(get_current_usage(&manager), 200);
    deallocate(&mut manager, a).unwrap();
    assert_eq!(get_current_usage(&manager), 200);
    let stats = get_stats(&manager);
    assert_eq!(stats.total_allocated, 200);
    assert_eq!(stats.component_breakdown.len(), 1);
}

#[test]
fn limit_error_reports_requested_total() {
    let mut manager = MemoryManager::new();
    let mut config = MemoryConfig::default_config();
    config.max_total_memory = 1000;
    init(&mut manager, config).unwrap();
    allocate(&mut manager, 600, "a").unwrap();
    match allocate(&mut manager, 500, "b") {
        Err(luna::error::LunaError::Memory { current_usage, limit, .. }) => {
            assert_eq!(current_usage, 1100);
            assert_eq!(limit, 1000);
        }
        _ => panic!("expected a memory error"),
    }
    assert_eq!(get_current_usage(&manager), 600);
}

#[test]
fn pooled_buffer_comes_back_zeroed() {
    let mut manager = MemoryManager::new();
    let mut buf = get_image_buffer(&mut manager, 16);
    buf[3] = 9;
    return_image_buffer(&mut manager, buf);
    let again = get_image_buffer(&mut manager, 8);
    assert_eq!(again, vec![0u8; 8]);
    assert_eq!(manager.pool_counts(), (0, 0, 0));
}

#[test]
fn cleanup_empties_everything() {
    let mut manager = MemoryManager::new();
    allocate(&mut manager, 10, "x").unwrap();
    return_image_buffer(&mut manager, vec![0u8; 4]);
    cleanup_all(&mut manager).unwrap();
    assert_eq!(get_current_usage(&manager), 0);
    assert_eq!(manager.pool_counts(), (0, 0, 0));
}

#[test]
fn validation_needs_a_gigabyte() {
    let manager = MemoryManager::new();
    assert!(manager.validate_memory_requirements_with(999_999_999).is_err());
    assert!(manager.validate_memory_requirements_with(1_000_000_000).is_ok());
}

#[test]
fn pool_cleanup_keeps_half() {
    let mut m = luna::memory::MemoryManager::new();
    for _ in 0..5 {
        m.return_image_buffer(Vec::with_capacity(1000));
    }
    assert_eq!(m.pool_counts(), (5, 0, 0));
    m.cleanup_buffer_pools();
    assert_eq!(m.pool_counts(), (2, 0, 0));
    m.clear_all_buffers();
    assert_eq!(m.pool_counts(), (0, 0, 0));
}

#[test]
fn usage_check_against_thresholds() {
    let mut m = luna::memory::MemoryManager::new();
    let calm = m.check_memory_usage();
    assert!(!calm.cleanup && !calm.emergency);
    m.allocate(3_300_000_000, "ai").unwrap();
    let high = m.check_memory_usage();
    assert!(high.cleanup && !high.emergency);
    m.allocate(600_000_000, "vision").unwrap();
    let critical = m.check_memory_usage();
    assert!(critical.cleanup && critical.emergency);
}
