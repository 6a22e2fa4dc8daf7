use yaaa::{
    BackendEvent,
    RestoredGroup, SpawnRequest, Tab, TabGroup, TabInfo, TabManager, TerminalBackendExt,
    WorkspaceError, DEFAULT_SHELL_CMD, LOGIN_ARG,
};

#[derive(Debug, Default, PartialEq)]
struct FakeBackend {
    total: usize,
    alternate: bool,
    bottom_requests: u32,
    history_clears: u32,
}

impl TerminalBackendExt for FakeBackend {
    fn total_lines(&self) -> usize {
        self.total
    }
    fn screen_lines(&self) -> usize {
        24
    }
    fn is_alternate_screen(&self) -> bool {
        self.alternate
    }
    fn scroll_to_bottom(&mut self) {
        self.bottom_requests += 1;
    }
    fn clear_history(&mut self) {
        self.history_clears += 1;
    }
}

fn manager() -> TabManager<FakeBackend> {
    TabManager::new("/bin/sh".to_string(), "agent".to_string(), false)
}

fn add_tab(m: &mut TabManager<FakeBackend>, group: u64, agent: bool) -> u64 {
    let req = m.begin_tab(group, agent, "/bin/sh".to_string()).ok().unwrap();
    let id = req.tab_id;
    assert!(m.attach_tab(req.group_id, req.tab_id, req.is_agent, FakeBackend::default()).is_ok());
    id
}

fn tab_ids(m: &TabManager<FakeBackend>, group_pos: usize) -> Vec<u64> {
    m.groups()[group_pos].tabs.iter().map(|t| t.id).collect()
}

fn all_tab_ids(m: &TabManager<FakeBackend>) -> Vec<u64> {
    m.groups().iter().flat_map(|g| g.tabs.iter().map(|t| t.id)).collect()
}

#[test]
fn group_named_after_last_component() {
    let mut m = manager();
    let g = m.create_group("/home/user/project".to_string()).ok().unwrap();
    assert_eq!(g, 0);
    assert_eq!(m.groups()[0].name, "project");
    assert_eq!(m.groups()[0].path, "/home/user/project");
    assert_eq!(m.active_group_id(), Some(0));
    assert_eq!(m.active_tab_id(), None);
    assert!(m.groups()[0].tabs.is_empty());
}

#[test]
fn name_from_path_falls_back_to_whole_path() {
    assert_eq!(TabGroup::name_from_path(&"/".to_string()), "/");
    assert_eq!(TabGroup::name_from_path(&"/srv/app/".to_string()), "app");
    assert_eq!(TabGroup::name_from_path(&"..".to_string()), "..");
}

#[test]
fn begin_tab_describes_the_spawn() {
    let mut m = TabManager::<FakeBackend>::new("/bin/sh".to_string(), "agent".to_string(), true);
    let g = m.create_group("/work".to_string()).ok().unwrap();
    let req = m.begin_tab(g, true, "agent".to_string()).ok().unwrap();
    assert_eq!(req.tab_id, 0);
    assert_eq!(req.group_id, g);
    assert!(req.is_agent);
    assert_eq!(req.shell, "agent");
    assert_eq!(req.args, vec![LOGIN_ARG.to_string()]);
    assert_eq!(req.working_directory, "/work");
    // the id stays consumed even if the spawn never succeeds
    let next = m.begin_tab(g, false, "/bin/sh".to_string()).ok().unwrap();
    assert_eq!(next.tab_id, 1);
}

#[test]
fn begin_tab_on_missing_group_fails() {
    let mut m = manager();
    assert!(matches!(m.begin_tab(3, false, "sh".to_string()), Err(WorkspaceError::NoSuchGroup)));
}

#[test]
fn spawn_retry_goes_to_default_then_fatal() {
    let req = SpawnRequest {
        tab_id: 4,
        group_id: 1,
        is_agent: true,
        shell: "agent".to_string(),
        args: vec![],
        working_directory: "/w".to_string(),
    };
    let retry = req.retry_after_failure().unwrap();
    assert_eq!(retry.shell, DEFAULT_SHELL_CMD);
    assert_eq!(retry.tab_id, 4);
    assert_eq!(retry.working_directory, "/w");
    assert!(retry.retry_after_failure().is_none());
}

#[test]
fn attach_makes_tab_and_group_active() {
    let mut m = manager();
    let g0 = m.create_group("/a".to_string()).ok().unwrap();
    let g1 = m.create_group("/b".to_string()).ok().unwrap();
    let t = add_tab(&mut m, g0, false);
    assert_eq!(m.active_group_id(), Some(g0));
    assert_eq!(m.active_tab_id(), Some(t));
    assert_eq!(tab_ids(&m, 0), vec![t]);
    assert!(tab_ids(&m, 1).is_empty());
    assert_eq!(m.get_active().unwrap().title, "tab: 0");
    let _ = g1;
}

#[test]
fn attach_refuses_bad_input() {
    let mut m = manager();
    let g = m.create_group("/a".to_string()).ok().unwrap();
    let t = add_tab(&mut m, g, false);
    assert!(matches!(m.attach_tab(9, 50, false, FakeBackend::default()), Err(WorkspaceError::NoSuchGroup)));
    assert!(matches!(m.attach_tab(g, t, false, FakeBackend::default()), Err(WorkspaceError::DuplicateTab)));
    assert!(matches!(m.attach_tab(g, u64::MAX, false, FakeBackend::default()), Err(WorkspaceError::IdsExhausted)));
    assert_eq!(all_tab_ids(&m), vec![t]);
}

#[test]
fn ids_never_reused() {
    let mut m = manager();
    let g = m.create_group("/a".to_string()).ok().unwrap();
    let a = add_tab(&mut m, g, false);
    let b = add_tab(&mut m, g, false);
    m.remove(b);
    let c = add_tab(&mut m, g, false);
    assert_ne!(c, b);
    assert_ne!(c, a);
    m.remove(a);
    m.remove(c);
    assert!(m.groups().is_empty());
    let g2 = m.create_group("/b".to_string()).ok().unwrap();
    assert_ne!(g2, g);
    let d = add_tab(&mut m, g2, false);
    assert_eq!(d, 3);
    let ids = all_tab_ids(&m);
    assert_eq!(ids, vec![d]);
}

#[test]
fn removing_last_tab_removes_group() {
    let mut m = manager();
    let g0 = m.create_group("/a".to_string()).ok().unwrap();
    let a = add_tab(&mut m, g0, false);
    let g1 = m.create_group("/b".to_string()).ok().unwrap();
    let b = add_tab(&mut m, g1, false);
    m.remove(b);
    assert_eq!(m.groups().len(), 1);
    assert_eq!(m.groups()[0].id, g0);
    // the removed group was active: the lowest group and its first tab take over
    assert_eq!(m.active_group_id(), Some(g0));
    assert_eq!(m.active_tab_id(), Some(a));
}

#[test]
fn removing_other_tab_keeps_group() {
    let mut m = manager();
    let g0 = m.create_group("/a".to_string()).ok().unwrap();
    let a = add_tab(&mut m, g0, false);
    let b = add_tab(&mut m, g0, false);
    let c = add_tab(&mut m, g0, false);
    let g1 = m.create_group("/b".to_string()).ok().unwrap();
    let d = add_tab(&mut m, g1, false);
    m.set_active_tab(b);
    m.remove(b);
    assert_eq!(tab_ids(&m, 0), vec![a, c]);
    assert_eq!(tab_ids(&m, 1), vec![d]);
    assert_eq!(m.active_group_id(), Some(g0));
    assert_eq!(m.active_tab_id(), Some(c));
    m.remove(a);
    assert_eq!(tab_ids(&m, 0), vec![c]);
    assert_eq!(m.active_tab_id(), Some(c));
}

#[test]
fn removing_unknown_tab_changes_nothing() {
    let mut m = manager();
    let g = m.create_group("/a".to_string()).ok().unwrap();
    let a = add_tab(&mut m, g, false);
    m.remove(77);
    assert_eq!(all_tab_ids(&m), vec![a]);
    assert_eq!(m.active_tab_id(), Some(a));
}

#[test]
fn remove_group_picks_lowest_remaining() {
    let mut m = manager();
    let g0 = m.create_group("/a".to_string()).ok().unwrap();
    let g1 = m.create_group("/b".to_string()).ok().unwrap();
    let b = add_tab(&mut m, g1, false);
    let g2 = m.create_group("/c".to_string()).ok().unwrap();
    let c = add_tab(&mut m, g2, false);
    m.remove_group(g2);
    assert_eq!(m.active_group_id(), Some(g0));
    assert_eq!(m.active_tab_id(), None);
    m.remove_group(g0);
    assert_eq!(m.active_group_id(), Some(g1));
    assert_eq!(m.active_tab_id(), Some(b));
    m.remove_group(g1);
    assert!(m.groups().is_empty());
    assert_eq!(m.active_group_id(), None);
    assert_eq!(m.active_tab_id(), None);
    let _ = c;
}

#[test]
fn active_pointer_stays_valid() {
    let mut m = manager();
    let g0 = m.create_group("/a".to_string()).ok().unwrap();
    let a = add_tab(&mut m, g0, false);
    let g1 = m.create_group("/b".to_string()).ok().unwrap();
    let b = add_tab(&mut m, g1, false);
    m.set_active_tab(a);
    assert_eq!(m.active_group_id(), Some(g0));
    m.set_active_tab(999);
    assert_eq!(m.active_tab_id(), Some(a));
    m.remove(a);
    let active = m.active_tab_id().unwrap();
    assert_eq!(active, b);
    assert_eq!(m.active_group_id(), Some(g1));
    assert!(tab_ids(&m, 0).contains(&active));
}

#[test]
fn cycle_wraparound() {
    let mut m = manager();
    let g = m.create_group("/a".to_string()).ok().unwrap();
    let a = add_tab(&mut m, g, false);
    let b = add_tab(&mut m, g, false);
    let c = add_tab(&mut m, g, false);
    assert_eq!(m.active_tab_id(), Some(c));
    m.switch_to_next_tab();
    assert_eq!(m.active_tab_id(), Some(a));
    m.switch_to_prev_tab();
    assert_eq!(m.active_tab_id(), Some(c));
    m.switch_to_prev_tab();
    assert_eq!(m.active_tab_id(), Some(b));
    m.switch_to_next_tab();
    assert_eq!(m.active_tab_id(), Some(c));
}

#[test]
fn cycle_with_one_tab_stays() {
    let mut m = manager();
    let g = m.create_group("/a".to_string()).ok().unwrap();
    let a = add_tab(&mut m, g, false);
    m.switch_to_next_tab();
    assert_eq!(m.active_tab_id(), Some(a));
    m.switch_to_prev_tab();
    assert_eq!(m.active_tab_id(), Some(a));
}

#[test]
fn switching_pins_the_shown_buffer() {
    let mut m = manager();
    let g = m.create_group("/a".to_string()).ok().unwrap();
    let a = add_tab(&mut m, g, false);
    let _b = add_tab(&mut m, g, false);
    m.set_active_tab(a);
    m.record_active_view(false, false);
    assert!(m.get_active().unwrap().scroll_state.normal.user_scrolled_up);
    m.switch_to_next_tab();
    m.switch_to_next_tab();
    assert_eq!(m.active_tab_id(), Some(a));
    assert!(!m.get_active().unwrap().scroll_state.normal.user_scrolled_up);
}

#[test]
fn sync_active_clears_history_on_a_drop() {
    let mut m = manager();
    let g = m.create_group("/a".to_string()).ok().unwrap();
    add_tab(&mut m, g, false);
    assert!(!m.sync_active(false, 1000));
    assert!(m.sync_active(false, 20));
    assert_eq!(m.get_active().unwrap().scroll_state.normal.last_line_count, 20);
    assert!(!m.get_active().unwrap().was_alternate_last_frame);
    assert!(!m.sync_active(true, 24));
    assert!(m.get_active().unwrap().was_alternate_last_frame);
    assert_eq!(m.get_active().unwrap().scroll_state.alternate.last_line_count, 24);
    assert_eq!(m.get_active().unwrap().scroll_state.normal.last_line_count, 20);
}

#[test]
fn just_created_is_consumed_once() {
    let mut m = manager();
    let g = m.create_group("/a".to_string()).ok().unwrap();
    add_tab(&mut m, g, false);
    assert!(m.take_active_just_created());
    assert!(!m.take_active_just_created());
}

#[test]
fn rename_and_title() {
    let mut m = manager();
    let g = m.create_group("/a".to_string()).ok().unwrap();
    let t = add_tab(&mut m, g, false);
    m.rename_group(g, "Renamed".to_string());
    m.rename_group(42, "Nope".to_string());
    assert_eq!(m.groups()[0].name, "Renamed");
    m.set_title(t, "vim".to_string());
    assert_eq!(m.get_active().unwrap().title, "vim");
}

#[test]
fn tab_labels() {
    let mut m = manager();
    let g = m.create_group("/a".to_string()).ok().unwrap();
    let _a = add_tab(&mut m, g, false);
    let b = add_tab(&mut m, g, true);
    assert_eq!(m.get_tab_name(g, 0), "1. Terminal");
    assert_eq!(m.get_tab_name(g, b), "2. Agent \u{1F4AC}");
    assert_eq!(m.get_tab_name(99, b), "2. \u{2795} Agent");
    assert_eq!(m.get_tab_name(g, 41), "42. Terminal");
}

#[test]
fn new_tab_title_uses_id() {
    let t = Tab::new(42, FakeBackend::default(), false);
    assert_eq!(t.title, "tab: 42");
    assert!(t.just_created);
    assert!(!t.was_alternate_last_frame);
}

#[test]
fn tab_frame_tracks_mode() {
    let mut t = Tab::new(1, FakeBackend::default(), false);
    t.scroll_state.normal.last_line_count = 300;
    assert!(!t.begin_frame(true, 24));
    assert!(t.was_alternate_last_frame);
    assert_eq!(t.scroll_state.alternate.last_line_count, 24);
    assert_eq!(t.scroll_state.normal.last_line_count, 300);
}

#[test]
fn clear_drops_everything() {
    let mut m = manager();
    let g = m.create_group("/a".to_string()).ok().unwrap();
    add_tab(&mut m, g, false);
    m.clear();
    assert!(m.groups().is_empty());
    assert_eq!(m.active_tab_id(), None);
    let g2 = m.create_group("/b".to_string()).ok().unwrap();
    assert_eq!(g2, 1);
}

#[test]
fn has_group_at_path() {
    let mut m = manager();
    m.create_group("/a".to_string()).ok().unwrap();
    assert!(m.has_group_at(&"/a".to_string()));
    assert!(!m.has_group_at(&"/b".to_string()));
}

#[test]
fn settings_of_the_workspace() {
    let mut m = manager();
    assert_eq!(m.session_command(true), "agent");
    assert_eq!(m.session_command(false), "/bin/sh");
    m.set_default_agent_cmd("aider".to_string());
    m.set_default_shell_cmd("/bin/zsh".to_string());
    m.set_run_as_login_shell(true);
    assert_eq!(m.default_agent_cmd(), "aider");
    assert_eq!(m.default_shell_cmd(), "/bin/zsh");
    assert!(m.run_as_login_shell());
}

fn restored(group: TabGroup) -> RestoredGroup<FakeBackend> {
    let backends = group.tabs.iter().map(|_| Some(FakeBackend::default())).collect();
    RestoredGroup { group, backends }
}

#[test]
fn snapshot_round_trip() {
    let mut m = manager();
    let g0 = m.create_group("/a".to_string()).ok().unwrap();
    add_tab(&mut m, g0, false);
    add_tab(&mut m, g0, true);
    let g1 = m.create_group("/b".to_string()).ok().unwrap();
    add_tab(&mut m, g1, false);
    m.remove(0);
    m.rename_group(g1, "Bee".to_string());
    let snap = m.snapshot();
    let input = snap.into_iter().map(restored).collect();
    let r = TabManager::restore(input, "/bin/sh".to_string(), "agent".to_string(), false).ok().unwrap();
    let again = r.snapshot();
    let orig = m.snapshot();
    assert_eq!(again.len(), orig.len());
    for (x, y) in again.iter().zip(orig.iter()) {
        assert_eq!(x.id, y.id);
        assert_eq!(x.name, y.name);
        assert_eq!(x.path, y.path);
        assert!(x.tabs == y.tabs);
    }
    assert_eq!(r.active_group_id(), Some(g0));
    assert_eq!(r.active_tab_id(), Some(1));
}

#[test]
fn restore_moves_counters_past_snapshot() {
    let group = TabGroup {
        id: 5,
        name: "p".to_string(),
        path: "/p".to_string(),
        tabs: vec![TabInfo { id: 9, is_agent: false }, TabInfo { id: 3, is_agent: true }],
    };
    let input = vec![RestoredGroup { group, backends: vec![None, Some(FakeBackend::default())] }];
    let mut r = TabManager::restore(input, "/bin/sh".to_string(), "agent".to_string(), false).ok().unwrap();
    assert_eq!(tab_ids(&r, 0), vec![3]);
    assert_eq!(r.active_tab_id(), Some(3));
    let g = r.create_group("/q".to_string()).ok().unwrap();
    assert_eq!(g, 6);
    let req = r.begin_tab(g, false, "/bin/sh".to_string()).ok().unwrap();
    assert_eq!(req.tab_id, 10);
}

#[test]
fn restore_refuses_malformed_snapshot() {
    let dup = vec![
        restored(TabGroup { id: 1, name: "a".to_string(), path: "/a".to_string(), tabs: vec![TabInfo { id: 1, is_agent: false }] }),
        restored(TabGroup { id: 2, name: "b".to_string(), path: "/b".to_string(), tabs: vec![TabInfo { id: 1, is_agent: false }] }),
    ];
    assert!(matches!(
        TabManager::restore(dup, String::new(), String::new(), false),
        Err(WorkspaceError::Malformed)
    ));
    let same_group = vec![
        restored(TabGroup { id: 2, name: "a".to_string(), path: "/a".to_string(), tabs: vec![] }),
        restored(TabGroup { id: 2, name: "b".to_string(), path: "/b".to_string(), tabs: vec![] }),
    ];
    assert!(TabManager::<FakeBackend>::restore(same_group, String::new(), String::new(), false).is_err());
    let short = vec![RestoredGroup::<FakeBackend> {
        group: TabGroup { id: 0, name: "a".to_string(), path: "/a".to_string(), tabs: vec![TabInfo { id: 0, is_agent: false }] },
        backends: vec![],
    }];
    assert!(TabManager::restore(short, String::new(), String::new(), false).is_err());
}

#[test]
fn restore_of_nothing_is_empty() {
    let r = TabManager::<FakeBackend>::restore(vec![], String::new(), String::new(), false).ok().unwrap();
    assert!(r.groups().is_empty());
    assert_eq!(r.active_group_id(), None);
}

#[test]
fn backend_events_route_to_the_workspace() {
    let mut m = manager();
    let g = m.create_group("/a".to_string()).ok().unwrap();
    let a = add_tab(&mut m, g, false);
    let b = add_tab(&mut m, g, false);
    m.handle_event(a, BackendEvent::Title("htop".to_string()));
    assert_eq!(m.groups()[0].tabs[0].title, "htop");
    m.handle_event(b, BackendEvent::Other);
    assert_eq!(all_tab_ids(&m), vec![a, b]);
    m.handle_event(b, BackendEvent::Exit);
    assert_eq!(all_tab_ids(&m), vec![a]);
    m.handle_event(a, BackendEvent::Exit);
    assert!(m.groups().is_empty());
    assert_eq!(m.active_tab_id(), None);
}

#[test]
fn restore_accepts_any_group_order() {
    let input = vec![
        restored(TabGroup { id: 7, name: "b".to_string(), path: "/b".to_string(), tabs: vec![TabInfo { id: 4, is_agent: false }] }),
        restored(TabGroup { id: 2, name: "a".to_string(), path: "/a".to_string(), tabs: vec![TabInfo { id: 9, is_agent: true }] }),
    ];
    let mut r = TabManager::restore(input, "/bin/sh".to_string(), "agent".to_string(), false).ok().unwrap();
    let ids: Vec<u64> = r.groups().iter().map(|g| g.id).collect();
    assert_eq!(ids, vec![2, 7]);
    assert_eq!(r.active_group_id(), Some(2));
    assert_eq!(r.active_tab_id(), Some(9));
    assert_eq!(r.create_group("/c".to_string()).ok().unwrap(), 8);
    assert_eq!(r.begin_tab(8, false, "sh".to_string()).ok().unwrap().tab_id, 10);
}

#[test]
fn working_directory_group_opened_once() {
    let mut m = manager();
    let g = m.ensure_group_at("/work/here".to_string()).ok().unwrap();
    assert_eq!(g, Some(0));
    assert_eq!(m.groups()[0].name, "here");
    assert_eq!(m.active_group_id(), Some(0));
    assert_eq!(m.ensure_group_at("/work/here".to_string()).ok().unwrap(), None);
    assert_eq!(m.groups().len(), 1);
}
