use hocus_focus::daemon::DaemonState;
use hocus_focus::domains::DomainSet;

fn set_of(names: &[&str]) -> DomainSet {
    let mut domains = DomainSet::new();
    for n in names {
        domains.insert(n.to_string());
    }
    domains
}

#[test]
fn first_round_always_writes() {
    let state = DaemonState::new();
    assert!(state.needs_apply(&DomainSet::new()));
    assert!(state.needs_apply(&set_of(&["a.com"])));
}

#[test]
fn writes_only_when_blocked_set_changes() {
    let mut state = DaemonState::new();
    state.record_applied(set_of(&["a.com", "b.com"]));
    assert!(!state.needs_apply(&set_of(&["b.com", "a.com"])));
    assert!(state.needs_apply(&set_of(&["a.com"])));
    assert!(state.needs_apply(&DomainSet::new()));
    state.record_applied(DomainSet::new());
    assert!(!state.needs_apply(&DomainSet::new()));
    assert!(state.active_blocks().is_empty());
}
