use local_event::Event;

#[test]
fn test_notify() {
    let mut event = Event::new();
    let listener = event.listen();

    assert!(!listener.is_notified(&event));
    event.notify(1);
    assert!(listener.is_notified(&event));
}

#[test]
fn test_notify_multiple() {
    let mut event = Event::new();
    let listener1 = event.listen();
    let listener2 = event.listen();
    let listener3 = event.listen();

    event.notify(2);

    assert!(listener1.is_notified(&event));
    assert!(listener2.is_notified(&event));
    assert!(!listener3.is_notified(&event));

    event.notify(2);

    assert!(listener1.is_notified(&event));
    assert!(listener2.is_notified(&event));
    assert!(!listener3.is_notified(&event));
}

#[test]
fn test_notify_additional() {
    let mut event = Event::new();
    let listener1 = event.listen();
    let listener2 = event.listen();
    let listener3 = event.listen();
    let listener4 = event.listen();

    event.notify(2);

    assert!(listener1.is_notified(&event));
    assert!(listener2.is_notified(&event));
    assert!(!listener3.is_notified(&event));
    assert!(!listener4.is_notified(&event));

    event.notify_additional(2);

    assert!(listener1.is_notified(&event));
    assert!(listener2.is_notified(&event));
    assert!(listener3.is_notified(&event));
    assert!(listener4.is_notified(&event));
}

#[test]
fn test_notify_all() {
    let mut event = Event::new();
    let listener1 = event.listen();
    let listener2 = event.listen();
    let listener3 = event.listen();

    event.notify(usize::MAX);

    assert!(listener1.is_notified(&event));
    assert!(listener2.is_notified(&event));
    assert!(listener3.is_notified(&event));
}

#[test]
fn notify_all_shorthand() {
    let mut event = Event::new();
    let listener1 = event.listen();
    let listener2 = event.listen();

    event.notify_all();

    assert!(listener1.is_notified(&event));
    assert!(listener2.is_notified(&event));
}

#[test]
fn notify_lower_than_current_is_noop() {
    let mut event = Event::new();
    let listener1 = event.listen();
    let listener2 = event.listen();
    let listener3 = event.listen();

    event.notify(2);
    event.notify(1);
    event.notify(0);

    assert!(listener1.is_notified(&event));
    assert!(listener2.is_notified(&event));
    assert!(!listener3.is_notified(&event));
}

#[test]
fn notify_tops_up_to_larger_count() {
    let mut event = Event::new();
    let listener1 = event.listen();
    let listener2 = event.listen();
    let listener3 = event.listen();

    event.notify(1);
    assert!(listener1.is_notified(&event));
    assert!(!listener2.is_notified(&event));

    event.notify(3);
    assert!(listener1.is_notified(&event));
    assert!(listener2.is_notified(&event));
    assert!(listener3.is_notified(&event));
}

#[test]
fn notify_additional_is_capped_by_listener_count() {
    let mut event = Event::new();
    let listener1 = event.listen();
    let listener2 = event.listen();

    event.notify_additional(10);

    assert!(listener1.is_notified(&event));
    assert!(listener2.is_notified(&event));
}

#[test]
fn notify_on_empty_event_is_harmless() {
    let mut event = Event::new();
    event.notify(3);
    event.notify_additional(2);
    event.notify_all();

    let listener = event.listen();
    assert!(!listener.is_notified(&event));
}

#[test]
fn default_event_behaves_like_new() {
    let mut event = Event::default();
    let listener = event.listen();
    assert!(!listener.is_notified(&event));
    event.notify(1);
    assert!(listener.is_notified(&event));
}
