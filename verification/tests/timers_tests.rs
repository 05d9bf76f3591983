use netsim::timers::TimeDriver;
use netsim::Timestamp;

#[test]
fn driver_works() {
    let mut driver = TimeDriver::new();
    assert_eq!(driver.time(), Timestamp::from_secs(0));

    driver.add_timer(Timestamp::from_secs(1));
    driver.add_timer(Timestamp::from_secs(2));
    driver.add_timer(Timestamp::from_millis(500));

    assert_eq!(driver.next_timer().unwrap(), Timestamp::from_millis(500));

    assert!(driver.advance_to_next_timer().is_some());
    assert_eq!(driver.next_timer().unwrap(), Timestamp::from_secs(1));

    driver.advance_to_time(Timestamp::from_millis(2100));
    assert!(driver.next_timer().is_none());
    assert_eq!(driver.time(), Timestamp::from_millis(2100));
}

#[test]
fn driver_wakes_up() {
    let mut driver = TimeDriver::new();
    let entry = driver.add_timer(Timestamp::from_secs(1));
    driver.register_waiter(entry, 7);
    let fired = driver.advance_to_next_timer();
    assert_eq!(fired, Some(Some(7)));
    assert_eq!(driver.time(), Timestamp::from_secs(1));
}

#[test]
fn sleep_zero_driver() {
    // a timer due now fires on the next advance without moving the
    // clock
    let mut driver = TimeDriver::new();
    driver.advance_to_time(Timestamp::from_secs(3));
    let entry = driver.add_timer(driver.time());
    driver.register_waiter(entry, 1);
    assert_eq!(driver.advance_to_next_timer(), Some(Some(1)));
    assert_eq!(driver.time(), Timestamp::from_secs(3));
    assert!(driver.timer_elapsed(entry));
}
