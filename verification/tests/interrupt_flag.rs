use hermit_tableau::interrupt_flag::{can_fire, interrupt_outcome, timed_out, InterruptError, InterruptFlag};

#[test]
fn explicit_interrupt_via_handle_fires() {
    let mut flag = InterruptFlag::new(-1);
    flag.start_task();
    let handle = flag.interrupt_handle();
    assert_eq!(flag.check_interrupt(), Ok(()));
    handle.interrupt();
    assert_eq!(flag.check_interrupt(), Err(InterruptError::Interrupted));
}

#[test]
fn starting_a_task_clears_the_latch() {
    let mut flag = InterruptFlag::new(-1);
    flag.interrupt();
    assert_eq!(flag.check_interrupt(), Err(InterruptError::Interrupted));
    flag.start_task();
    assert_eq!(flag.check_interrupt(), Ok(()));
    flag.interrupt();
    flag.end_task();
    assert_eq!(flag.check_interrupt(), Ok(()));
}

#[test]
fn a_flag_from_a_handle_shares_its_latch() {
    let flag = InterruptFlag::new(0);
    let handle = flag.interrupt_handle();
    let other = InterruptFlag::from_handle(&handle);
    assert!(!other.poll_can_fire());
    flag.interrupt();
    assert_eq!(other.check_interrupt(), Err(InterruptError::Interrupted));
    assert!(other.poll_can_fire());
}

#[test]
fn a_timeout_makes_polling_worthwhile() {
    let flag = InterruptFlag::new(5000);
    assert!(flag.poll_can_fire());
    assert_eq!(flag.check_interrupt(), Ok(()));
}

#[test]
fn an_interrupt_takes_precedence_over_a_timeout() {
    assert_eq!(interrupt_outcome(true, true), Err(InterruptError::Interrupted));
    assert_eq!(interrupt_outcome(false, true), Err(InterruptError::Timeout));
    assert_eq!(interrupt_outcome(false, false), Ok(()));
}

/// Spins until `millis` milliseconds have passed.
fn wait_millis(millis: u64) {
    let start = std::time::Instant::now();
    while start.elapsed() < std::time::Duration::from_millis(millis) {}
}

#[test]
fn default_timeout_never_fires() {
    let mut flag = InterruptFlag::new(-1);
    flag.start_task();
    wait_millis(5);
    assert_eq!(flag.check_interrupt(), Ok(()));
    flag.end_task();
}

#[test]
fn positive_timeout_fires_after_elapsing() {
    let mut flag = InterruptFlag::new(1);
    flag.start_task();
    wait_millis(10);
    assert_eq!(flag.check_interrupt(), Err(InterruptError::Timeout));
    flag.end_task();
    assert_eq!(flag.check_interrupt(), Ok(()));
}

#[test]
fn disposing_leaves_the_flag_usable() {
    let mut flag = InterruptFlag::new(-1);
    flag.dispose();
    flag.start_task();
    assert_eq!(flag.check_interrupt(), Ok(()));
    flag.interrupt();
    assert_eq!(flag.check_interrupt(), Err(InterruptError::Interrupted));
    flag.end_task();
    assert_eq!(flag.check_interrupt(), Ok(()));
}

#[test]
fn a_check_can_fire_with_a_timeout_or_a_set_latch() {
    assert!(can_fire(true, false));
    assert!(can_fire(false, true));
    assert!(!can_fire(false, false));
    let flag = InterruptFlag::new(-1);
    assert!(!flag.poll_can_fire());
    flag.interrupt();
    assert!(flag.poll_can_fire());
    assert!(InterruptFlag::new(3).poll_can_fire());
}

#[test]
fn a_timeout_is_used_up_once_it_has_fully_elapsed() {
    assert!(timed_out(5, 5));
    assert!(timed_out(6, 5));
    assert!(!timed_out(4, 5));
    assert!(timed_out(0, 0));
}
