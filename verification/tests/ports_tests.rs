use netsim::ports::FreePorts;

#[test]
fn free_ports() {
    let mut pool = FreePorts::new_full();
    assert_eq!(pool.len(), u16::MAX as usize);
    // the pool hands the smallest port out first, from 1 upward
    assert_eq!(pool.take_port(None), Some(1));
    assert_eq!(pool.take_port(None), Some(2));
    assert_eq!(pool.take_port(Some(65535)), Some(65535));
    assert_eq!(pool.take_port(Some(65535)), None);
    assert_eq!(pool.take_port(Some(2)), None);
    pool.return_port(2);
    assert_eq!(pool.take_port(Some(2)), Some(2));
    assert_eq!(pool.len(), u16::MAX as usize - 3);
}
