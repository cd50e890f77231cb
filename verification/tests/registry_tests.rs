use muiz::registry::UiWidgets;
use muiz::widget::{Capabilities, Capability, Widget};

fn drawable(name: &str) -> Widget {
    Widget::new(String::from(name), Capabilities::drawable())
}

#[test]
fn register_issues_unique_increasing_ids() {
    let mut r = UiWidgets::new();
    let id1 = r.register(Widget::new(String::from("one"), Capabilities::none()));
    let id2 = r.register(Widget::new(String::from("two"), Capabilities::none()));
    let id3 = r.register(Widget::new(String::from("three"), Capabilities::none()));
    assert!(id1 < id2 && id2 < id3);
    assert_eq!(r.ids(), 3);
}

#[test]
fn try_next_id_reports_the_counter() {
    let mut r = UiWidgets::new();
    assert_eq!(r.try_next_id(), Some(0));
    assert_eq!(r.try_next_id(), Some(1));
    assert_eq!(r.ids(), 2);
    let mut r2 = UiWidgets::new();
    assert_eq!(r2.next_id(), 0);
    assert_eq!(r2.next_id(), 1);
}

#[test]
fn unsupported_capability_is_rejected_before_membership() {
    let mut r = UiWidgets::new();
    let w = Widget::new(String::from("plain"), Capabilities::none());
    // An object that does not support the capability never enters a
    // membership sequence, and the registry is unchanged.
    let res = r.register_with_capability(w, Capability::Drawable);
    assert!(res.is_err());
    assert_eq!(r.drawables_len(), 0);
    assert_eq!(r.ids(), 0);
    let w = res.unwrap_err();
    assert_eq!(w.get_id().as_str(), "plain");
}

#[test]
fn capability_iteration_visits_in_registration_order() {
    let mut r = UiWidgets::new();
    let _a = r.register_as_drawable(drawable("a"));
    let _plain = r.register(Widget::new(String::from("plain"), Capabilities::none()));
    let _b = r.register_as_drawable(drawable("b"));
    let _c = r.register_as_drawable(drawable("c"));
    // Every drawable exactly once, in registration order; the plain object
    // never shows up.
    assert_eq!(r.drawables_len(), 3);
    assert_eq!(r.drawable_at(0).get_id().as_str(), "a");
    assert_eq!(r.drawable_at(1).get_id().as_str(), "b");
    assert_eq!(r.drawable_at(2).get_id().as_str(), "c");
}

#[test]
fn memberships_are_per_capability() {
    let mut r = UiWidgets::new();
    let w = Widget::new(String::from("both"), Capabilities::collidable());
    let id = r.register_with_capability(w, Capability::Collidable).unwrap();
    assert_eq!(r.membership_len(Capability::Collidable), 1);
    assert_eq!(r.membership_len(Capability::Drawable), 0);
    assert_eq!(r.with_capability_at(Capability::Collidable, 0).get_id().as_str(), "both");
    let _ = id;
}

#[test]
fn tag_binds_and_reports_overwrites() {
    let mut r = UiWidgets::new();
    let id1 = r.register(drawable("one"));
    let id2 = r.register(drawable("two"));
    assert_eq!(r.tag(id1, String::from("name")), None);
    // Last write wins, and the displaced identifier comes back.
    assert_eq!(r.tag(id2, String::from("name")), Some(id1));
    assert_eq!(r.get_by_tag(&String::from("name")).unwrap().get_id().as_str(), "two");
}

#[test]
fn get_by_tag_misses_are_silent() {
    let mut r = UiWidgets::new();
    let id = r.register(Widget::new(String::from("w"), Capabilities::none()));
    r.tag(id, String::from("w"));
    // Unknown name: nothing. Known name whose object lacks the capability:
    // nothing. Both are ordinary outcomes, never errors.
    assert!(r.get_by_tag(&String::from("missing")).is_none());
    assert!(r.get_drawable_by_tag(&String::from("w")).is_none());
    assert!(r.get_by_tag(&String::from("w")).is_some());
    // A tag may name an identifier that was never stored.
    r.tag(usize::MAX - 1, String::from("dangling"));
    assert!(r.get_by_tag(&String::from("dangling")).is_none());
}

#[test]
fn capability_narrowing_is_a_dynamic_query() {
    let mut r = UiWidgets::new();
    let both = Widget::new(String::from("both"), Capabilities::collidable());
    let id = r.register(both);
    r.tag(id, String::from("both"));
    // One object can support several capabilities at once.
    assert!(r.get_by_tag_with_capability(&String::from("both"), Capability::Drawable).is_some());
    assert!(r.get_by_tag_with_capability(&String::from("both"), Capability::Collidable).is_some());
    assert!(r.get_by_tag_with_capability(&String::from("both"), Capability::Callable).is_none());
}

#[test]
fn replace_by_tag_swaps_the_object() {
    let mut r = UiWidgets::new();
    let id = r.register_as_drawable(drawable("old"));
    r.tag(id, String::from("slot"));
    let mut new_w = drawable("new");
    new_w.show();
    let prev = r.replace_by_tag(&String::from("slot"), new_w);
    assert_eq!(prev.unwrap().get_id().as_str(), "old");
    let got = r.get_by_tag(&String::from("slot")).unwrap();
    assert_eq!(got.get_id().as_str(), "new");
    assert!(got.visible());
    // The drawable iteration sees the replacement too.
    assert_eq!(r.drawable_at(0).get_id().as_str(), "new");
    // An unresolvable name replaces nothing.
    let miss = r.replace_by_tag(&String::from("missing"), drawable("x"));
    assert!(miss.is_none());
}

#[test]
fn replace_at_swaps_each_member_in_order() {
    let mut r = UiWidgets::new();
    let ida = r.register_as_drawable(drawable("a"));
    let idb = r.register_as_drawable(drawable("b"));
    assert_eq!(r.member_at(Capability::Drawable, 0), ida);
    assert_eq!(r.member_at(Capability::Drawable, 1), idb);
    // Visit every drawable once, in registration order, making each visible.
    for i in 0..r.drawables_len() {
        let mut w = drawable(if i == 0 { "a" } else { "b" });
        w.show();
        let prev = r.replace_at(Capability::Drawable, i, w);
        assert!(!prev.visible());
    }
    assert!(r.drawable_at(0).visible());
    assert!(r.drawable_at(1).visible());
    assert_eq!(r.drawable_at(0).get_id().as_str(), "a");
    assert_eq!(r.drawable_at(1).get_id().as_str(), "b");
}

#[test]
fn rejection_needs_no_identifier_space() {
    let mut r = UiWidgets::new();
    // The rejection path allocates nothing, whatever the counter holds.
    let res = r.register_with_capability(
        Widget::new(String::from("plain"), Capabilities::none()),
        Capability::Callable,
    );
    assert!(res.is_err());
    assert_eq!(r.membership_len(Capability::Callable), 0);
    assert_eq!(r.ids(), 0);
}

#[test]
fn default_registry_is_empty() {
    let mut r = UiWidgets::default();
    assert_eq!(r.ids(), 0);
    assert_eq!(r.drawables_len(), 0);
    assert_eq!(r.next_id(), 0);
}

#[test]
fn end_to_end_tagging_is_not_aliasing() {
    // Register an object with the drawable capability, tag it "L9", and
    // resolve it; binding a second fresh tag creates an independent name,
    // not an alias relationship.
    let mut r = UiWidgets::new();
    let mut w = drawable("rect");
    w.show();
    let id = r.register_as_drawable(w);
    r.tag(id, String::from("L9"));
    let got = r.get_drawable_by_tag(&String::from("L9")).unwrap();
    assert_eq!(got.get_id().as_str(), "rect");
    assert!(got.visible());
    r.tag(id, String::from("L9b"));
    assert!(r.get_by_tag(&String::from("L9")).is_some());
    assert!(r.get_by_tag(&String::from("L9b")).is_some());
}
