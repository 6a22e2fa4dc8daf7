use yaaa::{
    next_probe, ProbeStep, fallback_after_failure, pick_shell, shell_args, shell_candidates, ScrollState, TabScrollState,
    BARE_SHELL_CMD, DEFAULT_SHELL_CMD, LOGIN_ARG,
};

fn state(last: usize, up: bool) -> ScrollState {
    ScrollState { last_line_count: last, user_scrolled_up: up }
}

#[test]
fn clear_detection_threshold() {
    let s = state(1000, false);
    assert!(s.detect_clear(50));
    assert!(!s.detect_clear(200));
    assert!(s.detect_clear(99));
    assert!(!s.detect_clear(100));
}

#[test]
fn clear_detection_needs_a_previous_count() {
    let s = state(0, false);
    assert!(!s.detect_clear(0));
    assert!(!s.detect_clear(5));
}

#[test]
fn current_selects_the_buffer() {
    let mut t = TabScrollState { normal: state(10, false), alternate: state(20, true) };
    assert_eq!(t.current(false).last_line_count, 10);
    assert_eq!(t.current(true).last_line_count, 20);
    t.current(true).last_line_count = 5;
    assert_eq!(t.alternate.last_line_count, 5);
    assert_eq!(t.normal.last_line_count, 10);
}

#[test]
fn steady_frame_records_count_and_keeps_flag() {
    let mut t = TabScrollState { normal: state(100, true), alternate: state(0, false) };
    let cleared = t.observe_frame(false, false, 120);
    assert!(!cleared);
    assert_eq!(t.normal.last_line_count, 120);
    assert!(t.normal.user_scrolled_up);
}

#[test]
fn clear_resets_the_normal_buffer() {
    let mut t = TabScrollState { normal: state(1000, true), alternate: state(7, true) };
    let cleared = t.observe_frame(false, false, 30);
    assert!(cleared);
    assert_eq!(t.normal.last_line_count, 30);
    assert!(!t.normal.user_scrolled_up);
    assert_eq!(t.alternate.last_line_count, 7);
    assert!(t.alternate.user_scrolled_up);
}

#[test]
fn clear_is_not_watched_on_the_alternate_screen() {
    let mut t = TabScrollState { normal: state(1000, true), alternate: state(900, true) };
    let cleared = t.observe_frame(true, true, 3);
    assert!(!cleared);
    assert_eq!(t.alternate.last_line_count, 3);
    assert!(t.alternate.user_scrolled_up);
    assert_eq!(t.normal.last_line_count, 1000);
}

#[test]
fn mode_switch_isolation() {
    let mut t = TabScrollState { normal: state(500, true), alternate: state(40, true) };
    // into the alternate screen: that buffer is reset, the normal one kept
    t.observe_frame(false, true, 24);
    assert_eq!(t.alternate.last_line_count, 24);
    assert!(!t.alternate.user_scrolled_up);
    assert_eq!(t.normal.last_line_count, 500);
    assert!(t.normal.user_scrolled_up);
    // frames on the alternate screen leave the normal buffer alone
    t.observe_frame(true, true, 2);
    t.record_view_position(true, false);
    assert_eq!(t.normal.last_line_count, 500);
    assert!(t.normal.user_scrolled_up);
    // back to normal: re-baselined on the reported count
    t.observe_frame(true, false, 510);
    assert_eq!(t.normal.last_line_count, 510);
    assert!(!t.normal.user_scrolled_up);
    assert_eq!(t.alternate.last_line_count, 2);
}

#[test]
fn view_position_only_kept_for_normal_buffer() {
    let mut t = TabScrollState { normal: state(10, false), alternate: state(10, false) };
    t.record_view_position(false, false);
    assert!(t.normal.user_scrolled_up);
    t.record_view_position(false, true);
    assert!(!t.normal.user_scrolled_up);
    t.record_view_position(true, false);
    assert!(!t.alternate.user_scrolled_up);
}

#[test]
fn unpin_pins_only_the_selected_buffer() {
    let mut t = TabScrollState { normal: state(10, true), alternate: state(10, true) };
    t.unpin(true);
    assert!(!t.alternate.user_scrolled_up);
    assert!(t.normal.user_scrolled_up);
}

#[test]
fn agent_candidates_in_fallback_order() {
    let c = shell_candidates("my-agent", true, Some("/bin/zsh".to_string()));
    assert_eq!(c, vec!["my-agent", DEFAULT_SHELL_CMD, BARE_SHELL_CMD, DEFAULT_SHELL_CMD]);
}

#[test]
fn terminal_candidates() {
    let c = shell_candidates("/bin/fish", false, None);
    assert_eq!(c, vec!["/bin/fish", DEFAULT_SHELL_CMD]);
}

#[test]
fn empty_request_uses_environment_shell() {
    let c = shell_candidates("", false, Some("/bin/zsh".to_string()));
    assert_eq!(c, vec!["/bin/zsh", DEFAULT_SHELL_CMD]);
    let d = shell_candidates("", false, None);
    assert_eq!(d, vec![DEFAULT_SHELL_CMD, DEFAULT_SHELL_CMD]);
}

#[test]
fn shell_fallback_order() {
    let c = shell_candidates("missing-agent", true, None);
    assert_eq!(pick_shell(&c, &vec![false, true, true, true]), DEFAULT_SHELL_CMD);
    assert_eq!(pick_shell(&c, &vec![false, false, true, true]), "bash");
    assert_eq!(pick_shell(&c, &vec![false, false, false, true]), DEFAULT_SHELL_CMD);
    assert_eq!(pick_shell(&c, &vec![true, true, true, true]), "missing-agent");
}

#[test]
fn nothing_resolves_gives_default_shell() {
    let c = vec!["a".to_string(), "b".to_string()];
    assert_eq!(pick_shell(&c, &vec![false, false]), DEFAULT_SHELL_CMD);
    assert_eq!(pick_shell(&c, &vec![false, true]), "b");
}

#[test]
fn login_arguments() {
    assert_eq!(shell_args(true), vec![LOGIN_ARG.to_string()]);
    assert!(shell_args(false).is_empty());
}

#[test]
fn retry_goes_to_default_shell_once() {
    assert_eq!(fallback_after_failure("/opt/agent"), Some(DEFAULT_SHELL_CMD.to_string()));
    assert_eq!(fallback_after_failure(DEFAULT_SHELL_CMD), None);
}

#[test]
fn probing_goes_in_order_and_stops_at_first_success() {
    let c = shell_candidates("missing-agent", true, None);
    assert!(matches!(next_probe(&c, &vec![]), ProbeStep::Probe(0)));
    assert!(matches!(next_probe(&c, &vec![false]), ProbeStep::Probe(1)));
    assert!(matches!(next_probe(&c, &vec![false, false]), ProbeStep::Probe(2)));
    match next_probe(&c, &vec![false, false, true]) {
        ProbeStep::Resolved(s) => assert_eq!(s, "bash"),
        ProbeStep::Probe(_) => panic!("resolution should be over"),
    }
    match next_probe(&c, &vec![false, false, false, false]) {
        ProbeStep::Resolved(s) => assert_eq!(s, DEFAULT_SHELL_CMD),
        ProbeStep::Probe(_) => panic!("resolution should be over"),
    }
}
