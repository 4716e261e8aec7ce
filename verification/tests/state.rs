use openhp1_runtime::state::{event_disabled, probe_event_index, set_event_disabled, DisabledEvents};

#[test]
fn disabled_events_are_case_insensitive_and_scoped_to_actor_state() {
    let mut disabled = DisabledEvents::new();
    set_event_disabled(&mut disabled, 2, Some("Beano"), "Tick", true);

    assert!(event_disabled(&disabled, 2, Some("beano"), "TICK"));
    assert!(!event_disabled(&disabled, 2, Some("KillBean"), "Tick"));
    assert!(!event_disabled(&disabled, 3, Some("Beano"), "Tick"));

    set_event_disabled(&mut disabled, 2, Some("BEANO"), "tick", false);
    assert!(!event_disabled(&disabled, 2, Some("Beano"), "Tick"));
    assert_eq!(probe_event_index("tick"), Some(36));
}

#[test]
fn events_disabled_outside_a_state_are_their_own_scope() {
    let mut disabled = DisabledEvents::new();
    set_event_disabled(&mut disabled, 1, None, "Touch", true);
    assert!(event_disabled(&disabled, 1, None, "touch"));
    assert!(!event_disabled(&disabled, 1, Some("Waiting"), "Touch"));
    set_event_disabled(&mut disabled, 1, None, "Touch", true);
    assert_eq!(disabled.scopes.len(), 1);
    assert_eq!(disabled.scopes[0].events.len(), 1);
}

#[test]
fn unknown_probe_events_have_no_index() {
    assert_eq!(probe_event_index("spawned"), Some(0));
    assert_eq!(probe_event_index("Nothing"), None);
}
