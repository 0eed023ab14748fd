use myrmidon::timers::TimerWheel;

#[test]
fn one_shot_fires_once() {
    let mut w = TimerWheel::new();
    let id = w.send_after(4, 50, b"tick".to_vec());
    assert_eq!(id, 1);
    assert_eq!(w.fire(id, true), Some((4, b"tick".to_vec())));
    assert_eq!(w.fire(id, true), None);
    assert!(!w.cancel_timer(id));
}

#[test]
fn interval_fires_until_cancelled() {
    let mut w = TimerWheel::new();
    let id = w.send_interval(2, 10, b"beat".to_vec());
    assert_eq!(w.fire(id, true), Some((2, b"beat".to_vec())));
    assert_eq!(w.fire(id, true), Some((2, b"beat".to_vec())));
    assert!(w.cancel_timer(id));
    assert!(!w.cancel_timer(id));
    assert_eq!(w.fire(id, true), None);
}

#[test]
fn timer_of_dead_target_is_disarmed() {
    let mut w = TimerWheel::new();
    let id = w.send_interval(2, 10, b"beat".to_vec());
    assert_eq!(w.fire(id, false), None);
    assert!(!w.cancel_timer(id));
}

#[test]
fn ids_are_distinct() {
    let mut w = TimerWheel::new();
    let a = w.send_after(1, 5, vec![]);
    let b = w.send_after(1, 5, vec![]);
    assert_ne!(a, b);
    assert!(w.cancel_timer(a));
    assert_eq!(w.fire(b, true), Some((1, vec![])));
}
