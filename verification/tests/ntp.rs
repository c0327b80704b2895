use laser_lockdown::ntp::{
    time_server, Clock, Timestamp, NTP_PORT, NTP_SERVER, RESYNC_INTERVAL, UTC_OFFSET,
};

#[test]
fn constants() {
    assert_eq!(NTP_SERVER, "pool.ntp.org");
    assert_eq!(NTP_PORT, 123);
    assert_eq!(RESYNC_INTERVAL, 24 * 60 * 60 * 1_000_000);
    assert_eq!(UTC_OFFSET, -5);
}

#[test]
fn dates() {
    assert_eq!(Clock::unix_to_datetime(0), (1970, 1, 1, 0, 0));
    assert_eq!(Clock::unix_to_datetime(86_399), (1970, 1, 1, 23, 59));
    assert_eq!(Clock::unix_to_datetime(86_400), (1970, 1, 2, 0, 0));
    assert_eq!(Clock::unix_to_datetime(951_782_400), (2000, 2, 29, 0, 0));
    assert_eq!(Clock::unix_to_datetime(951_868_800), (2000, 3, 1, 0, 0));
    assert_eq!(Clock::unix_to_datetime(1_700_000_000), (2023, 11, 14, 22, 13));
    assert_eq!(Clock::unix_to_datetime(1_735_689_599), (2024, 12, 31, 23, 59));
    assert_eq!(Clock::unix_to_datetime(4_107_542_400), (2100, 3, 1, 0, 0));
}

#[test]
fn clock_shows_local_time() {
    let mut clock = Clock::new(5);
    assert_eq!(clock.sync(Ok(1_700_000_000), 1_000_000), Ok(()));
    assert_eq!(clock.now(1_000_000), Ok("11/14/23 17:13 ".to_string()));
    assert_eq!(clock.now(1_999_999), Ok("11/14/23 17:13 ".to_string()));
    assert_eq!(clock.now(1_000_000 + 40 * 1_000_000), Ok("11/14/23 17:14 ".to_string()));
    assert_eq!(
        clock.now(1_000_000 + 7 * 3600 * 1_000_000),
        Ok("11/15/23 00:13 ".to_string())
    );
}

#[test]
fn single_digits_are_padded() {
    let mut clock = Clock::new(0);
    clock.sync(Ok(1_704_164_645), 0).unwrap();
    assert_eq!(clock.now(0), Ok("01/01/24 22:04 ".to_string()));
}

#[test]
fn clock_goes_on_without_an_answer() {
    let mut clock = Clock::new(0);
    clock.sync(Ok(1_700_000_000), 0).unwrap();
    assert_eq!(clock.sync(Err(()), 90_000_000_000), Err(()));
    assert_eq!(clock.now(60_000_000), Ok("11/14/23 17:14 ".to_string()));
    assert!(clock.needs_sync(90_000_000_000));
}

#[test]
fn clock_is_set_once_in_24_hours() {
    let clock = Clock::new(100);
    assert!(!clock.needs_sync(100));
    assert!(!clock.needs_sync(100 + RESYNC_INTERVAL));
    assert!(clock.needs_sync(101 + RESYNC_INTERVAL));
}

#[test]
fn clock_that_was_never_set_shows_a_time() {
    let clock = Clock::new(0);
    assert_eq!(clock.now(5 * 3600 * 1_000_000), Ok("01/01/70 00:00 ".to_string()));
    assert_eq!(clock.now(0).unwrap().len(), 15);
}

#[test]
fn clock_takes_any_time() {
    let mut clock = Clock::new(0);
    clock.sync(Ok(4_294_967_296 + 18_000), 0).unwrap();
    assert_eq!(clock.now(0), Ok("02/07/06 06:28 ".to_string()));
    clock.sync(Ok(u64::MAX), 0).unwrap();
    assert_eq!(clock.now(1_000_000).unwrap().len(), 15);
}

#[test]
fn first_address_is_asked() {
    assert_eq!(time_server(&[7u32, 8, 9]), Some((7, 123)));
    assert_eq!(time_server::<u32>(&[]), None);
}

#[test]
fn requests_carry_no_time() {
    let t = Timestamp::default();
    assert_eq!(t.timestamp_sec(), 0);
    assert_eq!(t.timestamp_subsec_micros(), 0);
    assert_eq!(Timestamp { base: 12 }.timestamp_sec(), 12);
}
