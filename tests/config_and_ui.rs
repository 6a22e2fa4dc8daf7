use yaaa::{
    default_agent_cmd, default_run_as_login_shell, default_shell_cmd, default_show_debug,
    default_show_fps, default_show_sidebar, default_show_terminal_lines, get_hotkeys, KeyInput,
    KeyboardEvents, PanelActions, RecentProjects, Settings, WindowActions, WindowManager,
    MAX_RECENT_PROJECTS,
};

#[test]
fn settings_defaults() {
    let s = Settings::with_defaults();
    assert!(s.show_terminal_lines && s.show_fps && s.show_sidebar);
    assert!(!s.run_as_login_shell);
    assert_eq!(s.default_shell_cmd, "/usr/bin/bash");
    assert_eq!(s.default_agent_cmd, "opencode");
    assert!(default_show_terminal_lines());
    assert!(default_show_fps());
    assert!(default_show_sidebar());
    assert!(!default_run_as_login_shell());
    assert!(default_show_debug());
    assert_eq!(default_shell_cmd(), "/usr/bin/bash");
    assert_eq!(default_agent_cmd(), "opencode");
}

#[test]
fn recent_projects_newest_first_without_duplicates() {
    let mut r = RecentProjects::new();
    r.add_project("a".to_string(), "/a".to_string());
    r.add_project("b".to_string(), "/b".to_string());
    r.add_project("a2".to_string(), "/a".to_string());
    let names: Vec<&str> = r.projects.iter().map(|p| p.name.as_str()).collect();
    assert_eq!(names, vec!["a2", "b"]);
}

#[test]
fn recent_projects_capped() {
    let mut r = RecentProjects::new();
    for i in 0..25 {
        r.add_project(format!("p{}", i), format!("/p{}", i));
    }
    assert_eq!(r.projects.len(), MAX_RECENT_PROJECTS);
    assert_eq!(r.projects[0].path, "/p24");
    assert_eq!(r.projects[19].path, "/p5");
}

#[test]
fn hotkeys_ordered_by_key() {
    let h = get_hotkeys();
    assert_eq!(h.len(), 9);
    assert_eq!(h[0], ("Ctrl + Shift + A", "Add new agent tab"));
    assert_eq!(h[8], ("Ctrl + Tab", "Switch to next tab"));
    let mut keys: Vec<&str> = h.iter().map(|p| p.0).collect();
    let sorted = keys.clone();
    keys.sort();
    assert_eq!(keys, sorted);
}

fn keys() -> KeyInput {
    KeyInput {
        tab: false,
        n: false,
        a: false,
        q: false,
        home: false,
        end: false,
        page_up: false,
        page_down: false,
        ctrl: true,
        shift: true,
    }
}

#[test]
fn keyboard_commands() {
    let mut k = keys();
    k.tab = true;
    let e = KeyboardEvents::from_input(&k, false);
    assert!(e.switch_to_prev_tab && !e.switch_to_next_tab);
    k.shift = false;
    let e = KeyboardEvents::from_input(&k, false);
    assert!(e.switch_to_next_tab && !e.switch_to_prev_tab);
    let mut k = keys();
    k.n = true;
    k.q = true;
    assert!(!KeyboardEvents::from_input(&k, false).add_terminal_tab);
    let e = KeyboardEvents::from_input(&k, true);
    assert!(e.add_terminal_tab && e.close_tab && !e.add_agent_tab);
    let mut k = keys();
    k.q = true;
    assert!(KeyboardEvents::from_input(&k, false).close_tab);
}

#[test]
fn window_manager_starts_closed() {
    let w = WindowManager::new("sh".to_string(), "agent".to_string(), true);
    assert!(!w.show_settings && !w.show_rename_group);
    assert_eq!(w.saved_default_shell_cmd, "sh");
    assert_eq!(w.editing_default_agent_cmd, "agent");
    assert!(w.saved_run_as_login_shell);
}

#[test]
fn rename_dialog_flow() {
    let mut w = WindowManager::new("sh".to_string(), "agent".to_string(), false);
    w.rename_group(3, "proj".to_string());
    assert!(w.show_rename_group);
    w.rename_group_name = "new".to_string();
    let mut actions = WindowActions::none();
    w.finish_rename(true, false, &mut actions);
    assert_eq!(actions.rename_group, Some((3, "new".to_string())));
    assert!(actions.should_save_groups);
    assert!(!w.show_rename_group);
    assert_eq!(w.rename_group_id, None);
}

#[test]
fn settings_dialog_save_and_cancel() {
    let mut w = WindowManager::new("sh".to_string(), "agent".to_string(), false);
    w.show_settings = true;
    assert!(w.settings_just_opened());
    assert!(!w.settings_just_opened());
    w.editing_default_shell_cmd = "zsh".to_string();
    let mut actions = WindowActions::none();
    w.finish_settings(false, true, &mut actions);
    assert_eq!(w.editing_default_shell_cmd, "sh");
    assert!(!actions.should_save_settings);
    w.editing_default_agent_cmd = "other".to_string();
    w.finish_settings(true, false, &mut actions);
    assert_eq!(actions.default_agent_cmd, Some("other".to_string()));
    assert_eq!(w.saved_default_agent_cmd, "other");
    assert!(actions.should_save_settings);
    assert!(!w.show_settings);
}

#[test]
fn panel_actions_start_empty() {
    let p = PanelActions::default();
    assert!(!p.add_group_clicked);
    assert!(p.group_actions.is_empty());
    assert_eq!(p.add_tab_to_group, None);
}
