use local_event::Event;
use std::sync::atomic::{AtomicUsize, Ordering};
use std::sync::Arc;
use std::task::{Wake, Waker};

struct CountingWake {
    count: AtomicUsize,
}

impl CountingWake {
    fn new() -> Arc<CountingWake> {
        Arc::new(CountingWake { count: AtomicUsize::new(0) })
    }

    fn wakes(&self) -> usize {
        self.count.load(Ordering::SeqCst)
    }
}

impl Wake for CountingWake {
    fn wake(self: Arc<Self>) {
        self.count.fetch_add(1, Ordering::SeqCst);
    }
}

#[test]
fn test_notify_drop() {
    let mut event = Event::new();
    let listener1 = event.listen();
    let listener2 = event.listen();
    let listener3 = event.listen();

    event.notify(2);

    assert!(listener1.is_notified(&event));
    assert!(listener2.is_notified(&event));
    assert!(!listener3.is_notified(&event));

    listener2.release(&mut event);

    assert!(listener3.is_notified(&event));
}

#[test]
fn release_promotes_earliest_waiting_listener() {
    let mut event = Event::new();
    let listener1 = event.listen();
    let listener2 = event.listen();
    let listener3 = event.listen();
    let listener4 = event.listen();

    event.notify(2);
    listener2.release(&mut event);

    assert!(listener1.is_notified(&event));
    assert!(listener3.is_notified(&event));
    assert!(!listener4.is_notified(&event));
}

#[test]
fn release_notified_with_no_waiter_drops_the_credit() {
    let mut event = Event::new();
    let listener1 = event.listen();
    let listener2 = event.listen();

    event.notify_all();
    listener2.release(&mut event);

    assert!(listener1.is_notified(&event));

    let listener3 = event.listen();
    assert!(!listener3.is_notified(&event));
}

#[test]
fn release_waiting_listener_affects_no_other() {
    let mut event = Event::new();
    let listener1 = event.listen();
    let listener2 = event.listen();
    let listener3 = event.listen();

    event.notify(1);
    listener2.release(&mut event);

    assert!(listener1.is_notified(&event));
    assert!(!listener3.is_notified(&event));
}

#[test]
fn released_credit_moves_to_a_waiting_probe() {
    let mut event = Event::new();
    let listener = event.listen();

    event.notify(1);
    assert!(listener.is_notified(&event));
    assert!(listener.is_registered(&event));
    let probe = event.listen();
    assert!(!probe.is_notified(&event));
    listener.release(&mut event);

    assert!(probe.is_notified(&event));
}

#[test]
fn is_notified_is_pure() {
    let mut event = Event::new();
    let listener1 = event.listen();
    let listener2 = event.listen();

    event.notify(1);

    for _ in 0..3 {
        assert!(listener1.is_notified(&event));
        assert!(!listener2.is_notified(&event));
    }
}

#[test]
fn poll_suspends_then_resolves_after_notify() {
    let mut event = Event::new();
    let listener = event.listen();
    let wake = CountingWake::new();

    assert!(!listener.poll(&mut event, Waker::from(wake.clone())));
    assert_eq!(wake.wakes(), 0);

    event.notify(1);
    assert_eq!(wake.wakes(), 1);

    assert!(listener.poll(&mut event, Waker::from(wake.clone())));
    assert_eq!(wake.wakes(), 1);
}

#[test]
fn notify_wakes_only_the_covered_listeners() {
    let mut event = Event::new();
    let listener1 = event.listen();
    let listener2 = event.listen();
    let wake1 = CountingWake::new();
    let wake2 = CountingWake::new();

    assert!(!listener1.poll(&mut event, Waker::from(wake1.clone())));
    assert!(!listener2.poll(&mut event, Waker::from(wake2.clone())));

    event.notify(1);

    assert_eq!(wake1.wakes(), 1);
    assert_eq!(wake2.wakes(), 0);
    assert!(listener1.is_notified(&event));
    assert!(!listener2.is_notified(&event));
}

#[test]
fn release_wakes_the_promoted_listener() {
    let mut event = Event::new();
    let listener1 = event.listen();
    let listener2 = event.listen();
    let wake2 = CountingWake::new();

    assert!(!listener2.poll(&mut event, Waker::from(wake2.clone())));

    event.notify(1);
    assert_eq!(wake2.wakes(), 0);

    listener1.release(&mut event);

    assert_eq!(wake2.wakes(), 1);
    assert!(listener2.is_notified(&event));
}

#[test]
fn latest_stored_waker_wins() {
    let mut event = Event::new();
    let listener = event.listen();
    let stale = CountingWake::new();
    let fresh = CountingWake::new();

    assert!(!listener.poll(&mut event, Waker::from(stale.clone())));
    assert!(!listener.poll(&mut event, Waker::from(fresh.clone())));

    event.notify(1);

    assert_eq!(stale.wakes(), 0);
    assert_eq!(fresh.wakes(), 1);
}

#[test]
fn listener_ids_are_never_reused() {
    let mut event = Event::new();
    assert_eq!(event.next_listener_id(), 0);
    let listener1 = event.listen();
    let listener2 = event.listen();
    assert_eq!(event.next_listener_id(), 2);

    listener1.release(&mut event);
    listener2.release(&mut event);

    assert_eq!(event.next_listener_id(), 2);
    let listener3 = event.listen();
    assert_eq!(event.next_listener_id(), 3);
    assert!(!listener3.is_notified(&event));
}
