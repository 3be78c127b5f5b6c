use waywallen::event_process::{
    on_router_event, BusSignal, DispatchAction, Dispatcher, DisplaySnapshot, LookupSource,
    RecallAction, RouterEvent, WallpaperRecall, IDLE_PARK, SETTLE,
};

fn display(id: u64, name: &str, instance_id: Option<&str>) -> DisplaySnapshot {
    DisplaySnapshot {
        id,
        name: name.to_string(),
        instance_id: instance_id.map(|s| s.to_string()),
    }
}

#[test]
fn latch_read_after_subscribing_starts_recall() {
    let (dispatcher, action) = Dispatcher::spawn(true, true);
    assert!(dispatcher.recall_started);
    assert_eq!(action, DispatchAction::StartRecall);
    let (_, action) = Dispatcher::spawn(true, false);
    assert_eq!(action, DispatchAction::Wait);
}

#[test]
fn recall_starts_once() {
    let (mut dispatcher, _) = Dispatcher::spawn(true, false);
    assert_eq!(dispatcher.step(BusSignal::Other), DispatchAction::Wait);
    assert_eq!(
        dispatcher.step(BusSignal::Lagged {
            sources_ready: false
        }),
        DispatchAction::Wait
    );
    assert_eq!(
        dispatcher.step(BusSignal::SourcesReady),
        DispatchAction::StartRecall
    );
    assert_eq!(dispatcher.step(BusSignal::SourcesReady), DispatchAction::Wait);
    assert_eq!(
        dispatcher.step(BusSignal::Lagged {
            sources_ready: true
        }),
        DispatchAction::Wait
    );
    assert_eq!(dispatcher.step(BusSignal::Closed), DispatchAction::Stop);
}

#[test]
fn missed_marker_is_caught_by_the_latch() {
    let (mut dispatcher, _) = Dispatcher::spawn(true, false);
    assert_eq!(
        dispatcher.step(BusSignal::Lagged {
            sources_ready: true
        }),
        DispatchAction::StartRecall
    );
}

#[test]
fn recall_never_starts_when_not_wanted() {
    let (mut dispatcher, action) = Dispatcher::spawn(false, true);
    assert_eq!(action, DispatchAction::Wait);
    assert_eq!(dispatcher.step(BusSignal::SourcesReady), DispatchAction::Wait);
}

#[test]
fn router_events_choose_what_to_record() {
    match on_router_event(RouterEvent::DisplayUpsert(display(3, "d", None))) {
        RecallAction::Record(list) => assert_eq!(list[0].id, 3),
        _ => panic!("an upsert is recorded"),
    }
    match on_router_event(RouterEvent::DisplaysReplace(vec![
        display(1, "a", None),
        display(2, "b", None),
    ])) {
        RecallAction::Record(list) => assert_eq!(list.len(), 2),
        _ => panic!("a replacement is recorded"),
    }
    assert!(matches!(
        on_router_event(RouterEvent::Other),
        RecallAction::Ignore
    ));
    assert!(matches!(
        on_router_event(RouterEvent::Lagged),
        RecallAction::RecordAll
    ));
    assert!(matches!(
        on_router_event(RouterEvent::Closed),
        RecallAction::Stop
    ));
}

#[test]
fn settings_are_asked_by_instance_then_name() {
    let mut recall = WallpaperRecall::new();
    let lookup = recall.arrive(&display(1, "HDMI-1", None), true).unwrap();
    assert_eq!(lookup.key, "HDMI-1");
    assert_eq!(lookup.source, LookupSource::StartupLast);
    let lookup = recall
        .arrive(&display(2, "HDMI-1", Some("left")), false)
        .unwrap();
    assert_eq!(lookup.key, "left");
    assert_eq!(lookup.source, LookupSource::ResolvedLast);
}

#[test]
fn known_display_is_not_asked_about_again() {
    let mut recall = WallpaperRecall::new();
    assert!(recall.arrive(&display(1, "a", None), true).is_some());
    assert!(recall.arrive(&display(1, "a", None), false).is_none());
    assert!(recall.arrive(&display(1, "b", Some("c")), false).is_none());
}

#[test]
fn displays_with_one_wallpaper_share_a_group() {
    let mut recall = WallpaperRecall::new();
    recall.record(1, Some("wp".to_string()), 100);
    recall.record(2, Some("wp".to_string()), 1_000_000_000);
    assert_eq!(recall.next_deadline(1_000_000_000), 2_000_000_100);
    assert!(recall.fire(2_000_000_099).is_empty());
    let fired = recall.fire(2_000_000_100);
    assert_eq!(fired.len(), 1);
    assert_eq!(fired[0].wp_id, "wp");
    assert_eq!(fired[0].ids, vec![1, 2]);
    assert!(recall.fire(9_000_000_000).is_empty());
}

#[test]
fn groups_are_applied_when_due() {
    let mut recall = WallpaperRecall::new();
    recall.record(1, Some("early".to_string()), 0);
    recall.record(2, Some("late".to_string()), 500);
    recall.record(3, None, 600);
    assert_eq!(recall.next_deadline(700), SETTLE);
    let fired = recall.fire(SETTLE);
    assert_eq!(fired.len(), 1);
    assert_eq!(fired[0].wp_id, "early");
    assert_eq!(recall.next_deadline(SETTLE), SETTLE + 500);
    let fired = recall.fire(SETTLE + 1_000);
    assert_eq!(fired.len(), 1);
    assert_eq!(fired[0].wp_id, "late");
    assert_eq!(fired[0].ids, vec![2]);
}

#[test]
fn nothing_pending_parks_for_an_hour() {
    let recall = WallpaperRecall::new();
    assert_eq!(IDLE_PARK, 3600 * 1_000_000_000);
    assert_eq!(recall.next_deadline(5), 5 + IDLE_PARK);
}

#[test]
fn a_group_formed_after_firing_waits_anew() {
    let mut recall = WallpaperRecall::new();
    recall.record(1, Some("wp".to_string()), 0);
    assert_eq!(recall.fire(SETTLE).len(), 1);
    recall.record(2, Some("wp".to_string()), SETTLE);
    assert_eq!(recall.next_deadline(SETTLE), 2 * SETTLE);
}
