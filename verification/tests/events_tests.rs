use muiz::events::{DataObj, EventQueue, EventType, WidgetEvent};

#[test]
fn rank_follows_the_documented_order() {
    assert_eq!(EventType::IDLE.rank(), 0);
    assert_eq!(EventType::LOG.rank(), 1);
    assert_eq!(EventType::PREDRAW.rank(), 2);
    assert_eq!(EventType::DRAW.rank(), 3);
    assert_eq!(EventType::POSTDRAW.rank(), 4);
    assert_eq!(EventType::CLICK.rank(), 5);
    assert_eq!(EventType::CUSTOM.rank(), 6);
    assert_eq!(EventType::QUIT.rank(), 7);
    assert_eq!(EventType::default(), EventType::IDLE);
}

#[test]
fn event_equality_ignores_payload() {
    let a = WidgetEvent(EventType::LOG, DataObj::I32(1));
    let b = WidgetEvent(EventType::LOG, DataObj::Text(String::from("other")));
    let c = WidgetEvent(EventType::DRAW, DataObj::I32(1));
    // Equality is defined only by the kind's rank; payload does not
    // participate. A deliberate, documented property.
    assert!(a == b);
    assert!(a != c);
}

#[test]
fn constructors_carry_their_kinds() {
    assert_eq!(WidgetEvent::predrawcall().0, EventType::PREDRAW);
    assert_eq!(WidgetEvent::drawcall().0, EventType::DRAW);
    assert_eq!(WidgetEvent::postdrawcall().0, EventType::POSTDRAW);
    assert!(matches!(WidgetEvent::drawcall().1, DataObj::Empty));
    assert!(matches!(DataObj::default(), DataObj::Empty));
}

#[test]
fn pop_order_is_rank_then_arrival() {
    // Events of kinds [LOG, DRAW, CLICK, LOG] pushed in that order must pop
    // as [CLICK, DRAW, LOG, LOG]: highest rank first, equal ranks keeping
    // their relative insertion order.
    let mut q = EventQueue::new();
    q.push(WidgetEvent(EventType::LOG, DataObj::I32(1)));
    q.push(WidgetEvent(EventType::DRAW, DataObj::Empty));
    q.push(WidgetEvent(EventType::CLICK, DataObj::Empty));
    q.push(WidgetEvent(EventType::LOG, DataObj::I32(2)));
    assert_eq!(q.len(), 4);
    let p1 = q.pop().unwrap();
    let p2 = q.pop().unwrap();
    let p3 = q.pop().unwrap();
    let p4 = q.pop().unwrap();
    assert_eq!(p1.0, EventType::CLICK);
    assert_eq!(p2.0, EventType::DRAW);
    assert_eq!(p3.0, EventType::LOG);
    assert_eq!(p4.0, EventType::LOG);
    // The equal-rank LOG events kept first-in first-out order.
    assert!(matches!(p3.1, DataObj::I32(1)));
    assert!(matches!(p4.1, DataObj::I32(2)));
    assert!(q.is_empty());
}

#[test]
fn default_event_and_queue_are_at_rest() {
    let e = WidgetEvent::default();
    assert_eq!(e.0, EventType::IDLE);
    assert!(matches!(e.1, DataObj::Empty));
    let mut q = EventQueue::default();
    assert!(q.pop().is_none());
}

#[test]
fn pop_on_empty_yields_nothing() {
    let mut q = EventQueue::new();
    assert!(q.pop().is_none());
    assert!(q.is_empty());
    assert_eq!(q.len(), 0);
}

#[test]
fn quit_outranks_everything() {
    let mut q = EventQueue::new();
    q.push(WidgetEvent(EventType::CUSTOM, DataObj::Empty));
    q.push(WidgetEvent(EventType::QUIT, DataObj::Empty));
    q.push(WidgetEvent(EventType::IDLE, DataObj::Empty));
    assert_eq!(q.pop().unwrap().0, EventType::QUIT);
    assert_eq!(q.pop().unwrap().0, EventType::CUSTOM);
    assert_eq!(q.pop().unwrap().0, EventType::IDLE);
}
