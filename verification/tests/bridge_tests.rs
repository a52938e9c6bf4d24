use remote_ram::bridge::{uuid_from_words, uuid_v4, SystemMemoryBridge};
use remote_ram::pool::MemoryPool;

const MIB: usize = 1024 * 1024;

fn is_pool_id(id: &str) -> bool {
    id.len() == 17
        && id.starts_with("pool_")
        && id[5..].chars().all(|c| c.is_ascii_hexdigit() && !c.is_ascii_uppercase())
}

#[test]
fn uuid_is_twelve_lower_hex_digits() {
    assert_eq!(uuid_from_words(0xdeadbeef, 0x00ab), "deadbeef00ab");
    assert_eq!(uuid_from_words(0, 0), "000000000000");
    assert_eq!(uuid_from_words(u32::MAX, u16::MAX), "ffffffffffff");
    let u = uuid_v4();
    assert_eq!(u.len(), 12);
    assert!(u.chars().all(|c| c.is_ascii_hexdigit() && !c.is_ascii_uppercase()));
}

#[test]
fn new_bridge_is_empty() {
    let b = SystemMemoryBridge::new(4 * MIB, true);
    assert_eq!(b.max_single_pool(), 4 * MIB);
    assert_eq!(b.total_remote_ram(), 0);
    assert_eq!(b.get_system_memory_info(), "Remote RAM: 0MB | Pools: 0 | Registered with system");
}

#[test]
fn register_adds_to_total() {
    let mut b = SystemMemoryBridge::new(10, true);
    assert_eq!(b.register_memory_with_system("x", 3 * MIB), Ok(()));
    assert_eq!(b.register_memory_with_system("y", MIB / 2), Ok(()));
    assert_eq!(b.total_remote_ram(), 3 * MIB + MIB / 2);
    assert_eq!(b.get_system_memory_info(), "Remote RAM: 3MB | Pools: 0 | Registered with system");
}

#[test]
fn allocation_above_limit_is_refused() {
    let mut b = SystemMemoryBridge::new(1000, true);
    assert_eq!(
        b.allocate_pool("big", 1001),
        Err("Pool size 1001 exceeds maximum 1000".to_string())
    );
    assert_eq!(b.total_remote_ram(), 0);
}

#[test]
fn allocation_registers_a_zeroed_pool() {
    let mut b = SystemMemoryBridge::new(2 * MIB, true);
    let id = b.allocate_pool("data", 2 * MIB).unwrap();
    assert!(is_pool_id(&id), "{}", id);
    assert!(b.has_pool(&id));
    assert_eq!(b.total_remote_ram(), 2 * MIB);
    assert_eq!(b.read_from_pool_fast(&id, 0, 8), Ok(vec![0u8; 8]));
    assert_eq!(b.read_from_pool_fast(&id, 2 * MIB - 3, 3), Ok(vec![0u8; 3]));
    assert_eq!(b.get_system_memory_info(), "Remote RAM: 2MB | Pools: 1 | Registered with system");
}

#[test]
fn allocation_with_given_uuid() {
    let mut b = SystemMemoryBridge::new(64, true);
    let id = b.allocate_pool_with_uuid("n", 64, "0123456789ab".to_string()).unwrap();
    assert_eq!(id, "pool_0123456789ab");
    assert_eq!(b.read_from_pool_fast("pool_0123456789ab", 60, 4), Ok(vec![0u8; 4]));
    assert_eq!(b.allocate_pool_with_uuid("n", 65, "x".to_string()), Err("Pool size 65 exceeds maximum 64".to_string()));
}

#[test]
fn zero_sized_pool() {
    let mut b = SystemMemoryBridge::new(0, true);
    let id = b.allocate_pool("empty", 0).unwrap();
    assert_eq!(b.read_from_pool_fast(&id, 0, 0), Ok(vec![]));
    assert_eq!(b.write_to_pool_fast(&id, 0, &[]), Ok(0));
    assert_eq!(b.write_to_pool_fast(&id, 0, &[1]), Err("Write exceeds pool size: 1 > 0".to_string()));
}

#[test]
fn write_then_read_back() {
    let mut b = SystemMemoryBridge::new(1 << 16, true);
    let id = b.allocate_pool("p", 1 << 16).unwrap();
    let data = b"Hello from local device!";
    assert_eq!(b.write_to_pool_fast(&id, 100, data), Ok(data.len()));
    assert_eq!(b.read_from_pool_fast(&id, 100, data.len()), Ok(data.to_vec()));
    // bytes around the write are untouched
    assert_eq!(b.read_from_pool_fast(&id, 98, 3), Ok(vec![0, 0, b'H']));
    // a later write over part of it
    assert_eq!(b.write_to_pool_fast(&id, 106, b"FROM"), Ok(4));
    assert_eq!(b.read_from_pool_fast(&id, 100, 10), Ok(b"Hello FROM".to_vec()));
}

#[test]
fn writes_past_the_end_are_refused() {
    let mut b = SystemMemoryBridge::new(16, true);
    let id = b.allocate_pool("p", 16).unwrap();
    assert_eq!(b.write_to_pool_fast(&id, 10, &[7u8; 6]), Ok(6));
    assert_eq!(
        b.write_to_pool_fast(&id, 11, &[9u8; 6]),
        Err("Write exceeds pool size: 17 > 16".to_string())
    );
    assert_eq!(b.read_from_pool_fast(&id, 10, 6), Ok(vec![7u8; 6]));
    assert_eq!(b.read_from_pool_fast(&id, 11, 6), Err("Read exceeds pool size".to_string()));
}

#[test]
fn unknown_pools_are_reported() {
    let mut b = SystemMemoryBridge::new(16, true);
    assert_eq!(b.write_to_pool_fast("pool_nope", 0, b"x"), Err("Pool not found".to_string()));
    assert_eq!(b.read_from_pool_fast("pool_nope", 0, 1), Err("Pool not found".to_string()));
    assert!(!b.has_pool("pool_nope"));
}

#[test]
fn pools_are_independent() {
    let mut b = SystemMemoryBridge::new(8, true);
    let p = b.allocate_pool_with_uuid("a", 8, "aaaaaaaaaaaa".to_string()).unwrap();
    let q = b.allocate_pool_with_uuid("b", 8, "bbbbbbbbbbbb".to_string()).unwrap();
    b.write_to_pool_fast(&p, 0, &[1; 8]).unwrap();
    assert_eq!(b.read_from_pool_fast(&q, 0, 8), Ok(vec![0; 8]));
    assert_eq!(b.get_system_memory_info(), "Remote RAM: 0MB | Pools: 2 | Registered with system");
}

#[test]
fn same_id_replaces_the_pool() {
    let mut b = SystemMemoryBridge::new(8, true);
    let p = b.allocate_pool_with_uuid("a", 8, "cccccccccccc".to_string()).unwrap();
    b.write_to_pool_fast(&p, 0, &[5; 8]).unwrap();
    let p2 = b.allocate_pool_with_uuid("a", 4, "cccccccccccc".to_string()).unwrap();
    assert_eq!(p, p2);
    assert_eq!(b.read_from_pool_fast(&p, 0, 4), Ok(vec![0; 4]));
    assert_eq!(b.read_from_pool_fast(&p, 0, 5), Err("Read exceeds pool size".to_string()));
    assert_eq!(b.total_remote_ram(), 12);
}

#[test]
fn memory_pool_page_touching_keeps_zeros() {
    let p = MemoryPool::new("x".to_string(), 3 * 4096 + 5);
    assert_eq!(p.max_size(), 3 * 4096 + 5);
}

#[test]
fn registration_only_where_the_target_registers() {
    let mut b = SystemMemoryBridge::new(4 * MIB, false);
    assert_eq!(b.register_memory_with_system("x", MIB), Ok(()));
    assert_eq!(b.total_remote_ram(), 0);
    let id = b.allocate_pool("p", 2 * MIB).unwrap();
    assert!(b.has_pool(&id));
    assert_eq!(b.total_remote_ram(), 0);
    assert_eq!(b.delete_pool(&id), Ok(()));
    assert_eq!(b.total_remote_ram(), 0);
}

#[test]
fn delete_info_and_listing() {
    let mut b = SystemMemoryBridge::new(100, true);
    let p = b.allocate_pool_with_uuid("a", 10, "eeeeeeeeeeee".to_string()).unwrap();
    let q = b.allocate_pool_with_uuid("b", 20, "ffffffffffff".to_string()).unwrap();
    let mut ids = b.list_pool_ids();
    ids.sort();
    assert_eq!(ids, vec![p.clone(), q.clone()]);
    assert_eq!(b.pool_info(&q), Ok("size=20 used=0 accesses=0".to_string()));
    b.write_to_pool_fast(&q, 3, &[1, 2]).unwrap();
    assert_eq!(b.pool_info(&q), Ok("size=20 used=5 accesses=1".to_string()));
    assert_eq!(b.delete_pool(&p), Ok(()));
    assert_eq!(b.total_remote_ram(), 20);
    assert_eq!(b.delete_pool(&p), Err("Pool not found".to_string()));
    assert_eq!(b.pool_info(&p), Err("Pool not found".to_string()));
    assert_eq!(b.list_pool_ids(), vec![q]);
}
