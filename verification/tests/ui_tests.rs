use muiz::events::{DataObj, EventType, WidgetEvent};
use muiz::ui::{UIBuilder, UiState, UI};
use muiz::widget::{Capabilities, Widget};

#[test]
fn builder_defaults_and_settings() {
    let ui = UIBuilder::init().build();
    assert_eq!(ui.status, UiState::UI_IDLE);
    assert!(!ui.should_exit());
    let ui2 = UIBuilder::init()
        .status(UiState::UI_DRAW)
        .globals(4)
        .drawables(2)
        .tags(2)
        .capacity(8)
        .build();
    assert_eq!(ui2.status, UiState::UI_DRAW);
    assert_eq!(ui2.widgets.ids(), 0);
    assert_eq!(UiState::default(), UiState::UI_IDLE);
}

#[test]
fn exit_status_stops_the_loop_condition() {
    let mut ui = UI::new();
    assert!(ui.keep_ticking(false));
    assert!(!ui.keep_ticking(true));
    ui.status = UiState::UI_EXIT;
    assert!(ui.should_exit());
    assert!(!ui.keep_ticking(false));
}

#[test]
fn at_most_one_event_per_tick() {
    // Push 3 events in one loop-hook call, then tick N times: exactly
    // min(3, N) event-hook invocations.
    for n in [2usize, 5usize] {
        let mut ui = UI::new();
        ui.events.queue.push(WidgetEvent(EventType::LOG, DataObj::Empty));
        ui.events.queue.push(WidgetEvent(EventType::DRAW, DataObj::Empty));
        ui.events.queue.push(WidgetEvent(EventType::CLICK, DataObj::Empty));
        let mut dispatched: usize = 0;
        for _ in 0..n {
            if ui.tick_event().is_some() {
                dispatched += 1;
            }
        }
        assert_eq!(dispatched, 3usize.min(n));
    }
}

#[test]
fn tick_pops_highest_priority_first() {
    let mut ui = UI::new();
    ui.events.queue.push(WidgetEvent(EventType::LOG, DataObj::Empty));
    ui.events.queue.push(WidgetEvent(EventType::QUIT, DataObj::Empty));
    let first = ui.tick_event().unwrap();
    assert_eq!(first.0, EventType::QUIT);
    let second = ui.tick_event().unwrap();
    assert_eq!(second.0, EventType::LOG);
    assert!(ui.tick_event().is_none());
}

#[test]
fn globals_environment_binds_names() {
    let mut ui = UI::new();
    let prev = ui.data.globals.insert(String::from("count"), DataObj::I32(1));
    assert!(prev.is_none());
    let prev = ui.data.globals.insert(String::from("count"), DataObj::I32(2));
    assert!(matches!(prev, Some(DataObj::I32(1))));
    assert!(ui.data.globals.contains_key(&String::from("count")));
    assert!(matches!(ui.data.globals.get(&String::from("count")), Some(DataObj::I32(2))));
    assert_eq!(ui.data.globals.len(), 1);
    let removed = ui.data.globals.remove(&String::from("count"));
    assert!(matches!(removed, Some(DataObj::I32(2))));
    assert_eq!(ui.data.globals.len(), 0);
}

#[test]
fn dispatcher_scenario_draw_loop() {
    // A loop hook that enqueues one DRAW event per tick keeps a
    // constantly-redrawing system going: every tick dispatches exactly one.
    let mut ui = UI::new();
    let mut draws: usize = 0;
    for _ in 0..4 {
        ui.events.queue.push(WidgetEvent::drawcall());
        if let Some(e) = ui.tick_event() {
            if e.0 == EventType::DRAW {
                draws += 1;
            }
        }
    }
    assert_eq!(draws, 4);
}

#[test]
fn registry_inside_the_dispatcher() {
    let mut ui = UI::new();
    let mut w = Widget::new(String::from("rect"), Capabilities::drawable());
    w.show();
    let id = ui.widgets.register_as_drawable(w);
    ui.widgets.tag(id, String::from("L9"));
    assert!(ui.widgets.get_drawable_by_tag(&String::from("L9")).is_some());
    assert_eq!(ui.widgets.drawables_len(), 1);
}
