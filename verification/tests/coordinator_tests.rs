use kura_voice::coordinator::{LoopCommand, PlaybackRegistry};

#[test]
fn toggle_with_nothing_playing_issues_no_command() {
    let mut reg = PlaybackRegistry::new();
    let (enabled, cmd) = reg.toggle_loop(10);
    assert!(enabled);
    assert!(cmd.is_none());
    let (enabled, cmd) = reg.toggle_loop(10);
    assert!(!enabled);
    assert!(cmd.is_none());
}

#[test]
fn toggled_flag_applies_to_the_next_playback() {
    let mut reg = PlaybackRegistry::new();
    let (enabled, cmd) = reg.toggle_loop(10);
    assert!(enabled && cmd.is_none());
    let (stopped, directives) = reg.begin_playback(10, 77);
    assert!(stopped.is_none());
    assert_eq!(directives.gain_on, 77);
    assert_eq!(directives.loop_command, LoopCommand::Enable(77));
}

#[test]
fn toggle_while_playing_commands_the_current_handle() {
    let mut reg = PlaybackRegistry::new();
    reg.begin_playback(10, 5);
    let (enabled, cmd) = reg.toggle_loop(10);
    assert!(enabled);
    assert_eq!(cmd, Some(LoopCommand::Enable(5)));
    let (enabled, cmd) = reg.toggle_loop(10);
    assert!(!enabled);
    assert_eq!(cmd, Some(LoopCommand::Disable(5)));
}

#[test]
fn begin_playback_stops_the_old_track_first() {
    let mut reg = PlaybackRegistry::new();
    let (stopped, _) = reg.begin_playback(10, 1);
    assert!(stopped.is_none());
    let (stopped, directives) = reg.begin_playback(10, 2);
    assert_eq!(stopped, Some(1));
    assert_eq!(directives.gain_on, 2);
    assert_eq!(directives.loop_command, LoopCommand::Disable(2));
    assert_eq!(reg.current_handle(10), Some(2));
}

#[test]
fn take_current_keeps_the_loop_flag() {
    let mut reg = PlaybackRegistry::new();
    reg.toggle_loop(10);
    reg.begin_playback(10, 9);
    let taken = reg.take_current(10);
    assert_eq!(taken, Some(9));
    assert_eq!(reg.current_handle(10), None);
    assert!(reg.loop_enabled(10));
    // stopping when nothing plays is not an error and changes nothing
    assert_eq!(reg.take_current(10), None);
    assert!(reg.loop_enabled(10));
}

#[test]
fn groups_are_independent() {
    let mut reg = PlaybackRegistry::new();
    reg.toggle_loop(1);
    reg.begin_playback(2, 42);
    assert!(reg.loop_enabled(1));
    assert!(!reg.loop_enabled(2));
    assert_eq!(reg.current_handle(1), None);
    assert_eq!(reg.current_handle(2), Some(42));
    let (stopped, _) = reg.begin_playback(1, 7);
    assert!(stopped.is_none());
    assert_eq!(reg.current_handle(2), Some(42));
}

#[test]
fn untouched_group_has_default_state() {
    let reg = PlaybackRegistry::new();
    assert!(!reg.loop_enabled(999));
    assert_eq!(reg.current_handle(999), None);
}
