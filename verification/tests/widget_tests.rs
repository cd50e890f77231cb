use muiz::widget::{Capabilities, Capability, Widget};

#[test]
fn capability_answers_are_per_instance() {
    let w = Widget::new(String::from("w"), Capabilities::drawable());
    assert!(w.supports(Capability::Drawable));
    assert!(!w.supports(Capability::Callable));
    assert!(!w.supports(Capability::Collidable));
    let c = Widget::new(String::from("c"), Capabilities::collidable());
    assert!(c.supports(Capability::Collidable));
    // The collidable interface extends the drawable one.
    assert!(c.supports(Capability::Drawable));
}

#[test]
fn fresh_widgets_start_inert() {
    let w = Widget::new(String::from("w"), Capabilities::none());
    assert_eq!(w.get_id().as_str(), "w");
    assert!(!w.visible());
    assert!(!w.is_ready());
    assert!(!w.locked());
}

#[test]
fn state_toggles_flip_exactly_one_flag() {
    let mut w = Widget::new(String::from("w"), Capabilities::collidable());
    w.show();
    assert!(w.visible());
    w.conceal();
    assert!(!w.visible());
    w.toggle_visibility();
    assert!(w.visible());
    w.ready();
    assert!(w.is_ready());
    w.unready();
    assert!(!w.is_ready());
    w.toggle_ready();
    assert!(w.is_ready());
    w.lock();
    assert!(w.locked());
    w.unlock();
    assert!(!w.locked());
    w.toggle_lock();
    assert!(w.locked());
    // Only the named flag moved.
    assert!(w.visible() && w.is_ready() && w.locked());
}
