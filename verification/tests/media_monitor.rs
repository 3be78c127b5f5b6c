use waywallen::media_monitor::{
    is_mpris_player_name, status_report, MediaMonitor, MediaPlaybackRegistry, MonitorEvent,
    MonitorInput, PlaybackStatus,
};

const SPOTIFY: &str = "org.mpris.MediaPlayer2.spotify";
const VLC: &str = "org.mpris.MediaPlayer2.vlc";

#[test]
fn mpris_bus_name_filter_accepts_only_player_services() {
    assert!(is_mpris_player_name("org.mpris.MediaPlayer2.spotify"));
    assert!(is_mpris_player_name(
        "org.mpris.MediaPlayer2.vlc.instance123"
    ));

    assert!(!is_mpris_player_name("org.freedesktop.ScreenSaver"));
    assert!(!is_mpris_player_name("org.mpris.MediaPlayer2"));
    assert!(!is_mpris_player_name(":1.42"));
}

#[test]
fn registry_reports_any_player_in_playing_state() {
    let mut registry = MediaPlaybackRegistry::default();

    registry.set_player_status("org.mpris.MediaPlayer2.spotify", PlaybackStatus::Paused);
    assert!(!registry.any_playing());

    registry.set_player_status("org.mpris.MediaPlayer2.vlc", PlaybackStatus::Playing);
    assert!(registry.any_playing());

    registry.set_player_status("org.mpris.MediaPlayer2.vlc", PlaybackStatus::Stopped);
    assert!(!registry.any_playing());
}

#[test]
fn registry_clears_removed_players() {
    let mut registry = MediaPlaybackRegistry::default();

    registry.set_player_status("org.mpris.MediaPlayer2.spotify", PlaybackStatus::Playing);
    assert!(registry.any_playing());

    registry.remove_player("org.mpris.MediaPlayer2.spotify");
    assert!(!registry.any_playing());
}

#[test]
fn prefix_alone_is_no_player() {
    assert!(!is_mpris_player_name("org.mpris.MediaPlayer2."));
    assert!(is_mpris_player_name("org.mpris.MediaPlayer2.x"));
    assert!(!is_mpris_player_name(""));
    assert!(!is_mpris_player_name("Org.mpris.MediaPlayer2.vlc"));
}

#[test]
fn status_words() {
    assert_eq!(PlaybackStatus::from_mpris("Playing"), PlaybackStatus::Playing);
    assert_eq!(PlaybackStatus::from_mpris("Paused"), PlaybackStatus::Paused);
    assert_eq!(PlaybackStatus::from_mpris("Stopped"), PlaybackStatus::Stopped);
    assert_eq!(PlaybackStatus::from_mpris("playing"), PlaybackStatus::Stopped);
    assert_eq!(PlaybackStatus::from_mpris(""), PlaybackStatus::Stopped);
}

#[test]
fn registry_ignores_other_names() {
    let mut registry = MediaPlaybackRegistry::default();
    registry.set_player_status("org.freedesktop.Notifications", PlaybackStatus::Playing);
    assert!(!registry.any_playing());
    registry.remove_player(SPOTIFY);
    assert!(!registry.any_playing());
}

#[test]
fn failed_reading_reports_nothing() {
    assert!(status_report(SPOTIFY, None).is_none());
    match status_report(SPOTIFY, Some("Paused")) {
        Some(MonitorEvent::Status(name, status)) => {
            assert_eq!(name, SPOTIFY);
            assert_eq!(status, PlaybackStatus::Paused);
        }
        None => panic!("a reading is reported"),
    }
}

fn report(name: &str, status: PlaybackStatus) -> MonitorInput {
    MonitorInput::Report(MonitorEvent::Status(name.to_string(), status))
}

fn owner(name: &str, owned: bool) -> MonitorInput {
    MonitorInput::OwnerChanged {
        name: name.to_string(),
        owned,
    }
}

#[test]
fn first_sweep_watches_each_player_once() {
    let names = vec![
        ":1.7".to_string(),
        VLC.to_string(),
        "org.freedesktop.DBus".to_string(),
        SPOTIFY.to_string(),
        VLC.to_string(),
    ];
    let (mut monitor, watch) = MediaMonitor::start(&names);
    assert_eq!(watch, vec![VLC.to_string(), SPOTIFY.to_string()]);
    assert_eq!(monitor.step(&owner(VLC, true)).watch, None);
    let (abort, last) = monitor.finish();
    assert_eq!(abort, vec![VLC.to_string(), SPOTIFY.to_string()]);
    assert!(!last);
}

#[test]
fn monitor_publishes_changes_only() {
    let (mut monitor, _) = MediaMonitor::start(&Vec::new());
    assert_eq!(monitor.step(&report(SPOTIFY, PlaybackStatus::Paused)).publish, None);
    assert_eq!(
        monitor.step(&report(SPOTIFY, PlaybackStatus::Playing)).publish,
        Some(true)
    );
    assert_eq!(monitor.step(&report(VLC, PlaybackStatus::Playing)).publish, None);
    assert_eq!(monitor.step(&report(SPOTIFY, PlaybackStatus::Stopped)).publish, None);
    assert_eq!(
        monitor.step(&report(VLC, PlaybackStatus::Paused)).publish,
        Some(false)
    );
    assert_eq!(
        monitor
            .step(&report("org.example.NotAPlayer", PlaybackStatus::Playing))
            .publish,
        None
    );
}

#[test]
fn lost_player_is_aborted_and_cleared() {
    let (mut monitor, _) = MediaMonitor::start(&Vec::new());
    let up = monitor.step(&owner(SPOTIFY, true));
    assert_eq!(up.watch.as_deref(), Some(SPOTIFY));
    assert_eq!(up.abort, None);
    assert_eq!(
        monitor.step(&report(SPOTIFY, PlaybackStatus::Playing)).publish,
        Some(true)
    );
    let down = monitor.step(&owner(SPOTIFY, false));
    assert_eq!(down.watch, None);
    assert_eq!(down.abort.as_deref(), Some(SPOTIFY));
    assert_eq!(down.publish, Some(false));
    let again = monitor.step(&owner(SPOTIFY, false));
    assert_eq!(again.abort, None);
    assert_eq!(again.publish, None);
    assert_eq!(
        monitor.step(&owner(SPOTIFY, true)).watch.as_deref(),
        Some(SPOTIFY)
    );
}

#[test]
fn other_owners_and_unreadable_signals_ask_for_nothing() {
    let (mut monitor, _) = MediaMonitor::start(&Vec::new());
    for input in [owner("org.freedesktop.DBus", true), MonitorInput::Unreadable] {
        let reaction = monitor.step(&input);
        assert_eq!(reaction.watch, None);
        assert_eq!(reaction.abort, None);
        assert_eq!(reaction.publish, None);
        assert!(!reaction.stop);
    }
}

#[test]
fn shutdown_stops_when_closed_or_requested() {
    let (mut monitor, _) = MediaMonitor::start(&Vec::new());
    for (closed, requested, stop) in [
        (false, false, false),
        (false, true, true),
        (true, false, true),
        (true, true, true),
    ] {
        let reaction = monitor.step(&MonitorInput::Shutdown { closed, requested });
        assert_eq!(reaction.stop, stop);
    }
}
