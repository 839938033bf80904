use stratamoto::timer::{TimeRuntime, Timer};

#[test]
fn timers_fire_earliest_first_and_ties_in_order() {
    let mut timer = Timer::new();
    timer.push(30, "c");
    timer.push(10, "a");
    timer.push(20, "b1");
    timer.push(20, "b2");
    assert_eq!(timer.next_time(), Some(10));
    assert_eq!(timer.fire(20), vec!["a", "b1", "b2"]);
    assert_eq!(timer.next_time(), Some(30));
    assert!(timer.fire(29).is_empty());
    assert_eq!(timer.fire(u64::MAX), vec!["c"]);
    assert_eq!(timer.next_time(), None);
}

#[test]
fn the_clock_moves_to_each_deadline_in_turn() {
    let mut runtime = TimeRuntime::new();
    assert_eq!(runtime.elapsed(), 0);
    assert_eq!(runtime.advance(), (false, vec![]));
    let deadline = runtime.handle().sleep(1_000);
    assert!(!runtime.handle().is_due(deadline));
    runtime.handle_mut().add_timer(deadline, 1);
    runtime.handle_mut().add_timer(500, 2);
    runtime.handle_mut().add_timer(500, 3);
    assert_eq!(runtime.advance(), (true, vec![2, 3]));
    assert_eq!(runtime.elapsed(), 500);
    assert_eq!(runtime.now(), 500);
    assert_eq!(runtime.advance(), (true, vec![1]));
    assert_eq!(runtime.elapsed(), 1_000);
    assert!(runtime.handle().is_due(deadline));
    assert_eq!(runtime.advance(), (false, vec![]));
    assert_eq!(runtime.elapsed(), 1_000);
}

#[test]
fn a_sleep_waits_for_its_deadline_and_then_is_over() {
    let mut runtime = TimeRuntime::new();
    assert!(!runtime.handle_mut().sleep_until(250, "woken"));
    assert!(runtime.handle_mut().sleep_until(0, "never"));
    assert_eq!(runtime.advance(), (true, vec!["woken"]));
    assert_eq!(runtime.handle().elapsed(), 250);
    assert_eq!(runtime.handle().now(), 250);
    assert_eq!(runtime.handle().sleep(50), 300);
    assert!(runtime.handle_mut().sleep_until(250, "never"));
    assert_eq!(runtime.advance(), (false, vec![]));
}

#[test]
fn a_timer_runs_once_at_its_deadline_and_never_before() {
    let mut runtime = TimeRuntime::new();
    runtime.handle_mut().add_timer(300, "late");
    runtime.handle_mut().add_timer(100, "early");
    assert_eq!(runtime.advance(), (true, vec!["early"]));
    assert_eq!(runtime.now(), 100);
    assert!(runtime.now() < 300);
    runtime.handle_mut().add_timer(200, "middle");
    assert_eq!(runtime.advance(), (true, vec!["middle"]));
    assert_eq!(runtime.handle().now(), 200);
    assert_eq!(runtime.advance(), (true, vec!["late"]));
    assert_eq!(runtime.handle().elapsed(), 300);
    assert_eq!(runtime.handle().now(), runtime.handle().elapsed());
    assert_eq!(runtime.advance(), (false, vec![]));
    assert_eq!(runtime.now(), 300);
}
