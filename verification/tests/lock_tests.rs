use wallpaper_carousel::lock::{parse_pid, LockError, ProcessLock};

#[test]
fn parse_plain_pids() {
    assert_eq!(parse_pid("1234"), Some(1234));
    assert_eq!(parse_pid("0"), Some(0));
    assert_eq!(parse_pid(" 42\n"), Some(42));
    assert_eq!(parse_pid("\t7 "), Some(7));
}

#[test]
fn parse_signed_pids() {
    assert_eq!(parse_pid("+7"), Some(7));
    assert_eq!(parse_pid("-5"), Some(-5));
    assert_eq!(parse_pid("2147483647"), Some(2147483647));
    assert_eq!(parse_pid("-2147483648"), Some(-2147483648));
}

#[test]
fn parse_rejects_garbage() {
    assert_eq!(parse_pid(""), None);
    assert_eq!(parse_pid("   "), None);
    assert_eq!(parse_pid("abc"), None);
    assert_eq!(parse_pid("12x"), None);
    assert_eq!(parse_pid("+"), None);
    assert_eq!(parse_pid("-"), None);
    assert_eq!(parse_pid("2147483648"), None);
    assert_eq!(parse_pid("-2147483649"), None);
    assert_eq!(parse_pid("99999999999999999999"), None);
    assert_eq!(parse_pid("12 34"), None);
}

#[test]
fn example_scenario_stale_lock_is_superseded() {
    // The lock file names a PID that is no longer running.  Acquiring must
    // not error: the stale holder is (best-effort) signalled, the file is
    // superseded, and the new PID is written.
    let mut lock = ProcessLock::from_contents("999999".to_string());
    let prev = lock.acquire(4242).expect("stale lock must not block acquire");
    assert_eq!(prev, Some(999999));
    assert_eq!(lock.file, Some("4242".to_string()));
}

#[test]
fn acquire_without_existing_lock() {
    let mut lock = ProcessLock::new();
    let prev = lock.acquire(31337).unwrap();
    assert_eq!(prev, None);
    assert_eq!(lock.file, Some("31337".to_string()));
}

#[test]
fn acquire_trims_lock_contents() {
    let mut lock = ProcessLock::from_contents(" 1500 \n".to_string());
    let prev = lock.acquire(77).unwrap();
    assert_eq!(prev, Some(1500));
    assert_eq!(lock.file, Some("77".to_string()));
}

#[test]
fn malformed_pid_is_fatal_and_preserves_the_file() {
    let mut lock = ProcessLock::from_contents("not-a-pid".to_string());
    assert_eq!(lock.acquire(1), Err(LockError::MalformedPid));
    assert_eq!(lock.file, Some("not-a-pid".to_string()));
}

#[test]
fn release_is_idempotent() {
    let mut lock = ProcessLock::from_contents("123".to_string());
    lock.release();
    assert_eq!(lock.file, None);
    lock.release();
    assert_eq!(lock.file, None);
}
