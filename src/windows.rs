use vstd::prelude::*;

verus! {

/// What the dialogs asked of the workspace this frame.
#[derive(Default)]
pub struct WindowActions {
    pub rename_group: Option<(u64, String)>,
    pub default_shell_cmd: Option<String>,
    pub default_agent_cmd: Option<String>,
    pub run_as_login_shell: Option<bool>,
    pub should_save_groups: bool,
    pub should_save_settings: bool,
}

impl WindowActions {
    /// No action.
    pub fn none() -> (r: WindowActions)
        ensures
            r.rename_group is None,
            r.default_shell_cmd is None,
            r.default_agent_cmd is None,
            r.run_as_login_shell is None,
            !r.should_save_groups,
            !r.should_save_settings,
    {
        WindowActions {
            rename_group: None,
            default_shell_cmd: None,
            default_agent_cmd: None,
            run_as_login_shell: None,
            should_save_groups: false,
            should_save_settings: false,
        }
    }
}

/// What the side panel asked of the workspace this frame. Each entry of
/// `group_actions` names a group, an action (`remove_group`, `select_tab`
/// or `remove_tab`) and the sessions it concerns.
pub struct PanelActions {
    pub add_group_clicked: bool,
    pub add_tab_to_group: Option<u64>,
    pub add_agent_tab_to_group: Option<u64>,
    pub group_actions: Vec<(u64, String, Vec<(u64, bool)>)>,
}

impl Default for PanelActions {
    fn default() -> (r: PanelActions)
        ensures
            !r.add_group_clicked,
            r.add_tab_to_group is None,
            r.add_agent_tab_to_group is None,
            r.group_actions@.len() == 0,
    {
        PanelActions {
            add_group_clicked: false,
            add_tab_to_group: None,
            add_agent_tab_to_group: None,
            group_actions: Vec::new(),
        }
    }
}

/// The state of the dialogs: which are open, the group being renamed, and
/// the settings being edited next to the last saved ones.
pub struct WindowManager {
    pub show_about: bool,
    pub show_hotkeys: bool,
    pub show_settings: bool,
    pub show_rename_group: bool,
    pub rename_group_id: Option<u64>,
    pub rename_group_name: String,
    pub editing_default_shell_cmd: String,
    pub editing_default_agent_cmd: String,
    pub saved_default_shell_cmd: String,
    pub saved_default_agent_cmd: String,
    pub editing_run_as_login_shell: bool,
    pub saved_run_as_login_shell: bool,
    pub was_settings_open: bool,
}

impl WindowManager {
    /// All dialogs closed, the settings under edit equal to the saved ones.
    pub fn new(default_shell_cmd: String, default_agent_cmd: String, run_as_login_shell: bool) -> (r: WindowManager)
        ensures
            !r.show_about && !r.show_hotkeys && !r.show_settings && !r.show_rename_group,
            r.rename_group_id is None,
            r.rename_group_name@.len() == 0,
            r.editing_default_shell_cmd@ == default_shell_cmd@,
            r.editing_default_agent_cmd@ == default_agent_cmd@,
            r.saved_default_shell_cmd@ == default_shell_cmd@,
            r.saved_default_agent_cmd@ == default_agent_cmd@,
            r.editing_run_as_login_shell == run_as_login_shell,
            r.saved_run_as_login_shell == run_as_login_shell,
            !r.was_settings_open,
    {
        let saved_default_shell_cmd = default_shell_cmd.clone();
        let saved_default_agent_cmd = default_agent_cmd.clone();
        WindowManager {
            show_about: false,
            show_hotkeys: false,
            show_settings: false,
            show_rename_group: false,
            rename_group_id: None,
            rename_group_name: String::new(),
            editing_default_shell_cmd: default_shell_cmd,
            editing_default_agent_cmd: default_agent_cmd,
            saved_default_shell_cmd,
            saved_default_agent_cmd,
            editing_run_as_login_shell: run_as_login_shell,
            saved_run_as_login_shell: run_as_login_shell,
            was_settings_open: false,
        }
    }

    /// Opens the rename dialog for group `group_id`, starting from `name`.
    pub fn rename_group(&mut self, group_id: u64, name: String)
        ensures
            *final(self) == (WindowManager {
                rename_group_id: Some(group_id),
                rename_group_name: name,
                show_rename_group: true,
                ..*old(self)
            }),
    {
        self.rename_group_id = Some(group_id);
        self.rename_group_name = name;
        self.show_rename_group = true;
    }

    /// Closes the rename dialog after Save (`save`) or Cancel/Escape
    /// (`close`); a save asks for the rename and for the groups to be saved.
    pub fn finish_rename(&mut self, save: bool, close: bool, actions: &mut WindowActions)
        requires
            save ==> old(self).rename_group_id is Some,
        ensures
            (save || close) ==> !final(self).show_rename_group && final(self).rename_group_id is None,
            !(save || close) ==> *final(self) == *old(self),
            save ==> (final(actions).rename_group matches Some((g, n)) && Some(g) == old(self).rename_group_id
                && n@ == old(self).rename_group_name@) && final(actions).should_save_groups,
            !save ==> *final(actions) == *old(actions),
            final(self).rename_group_name == old(self).rename_group_name,
    {
        if save {
            let id = match self.rename_group_id {
                Some(id) => id,
                None => return,
            };
            actions.rename_group = Some((id, self.rename_group_name.clone()));
            self.show_rename_group = false;
            self.rename_group_id = None;
            actions.should_save_groups = true;
        }
        if close {
            self.show_rename_group = false;
            self.rename_group_id = None;
        }
    }

    /// Whether the settings dialog has just opened, so that it takes the
    /// focus; remembers whether it is open for the next frame.
    pub fn settings_just_opened(&mut self) -> (r: bool)
        ensures
            r == (old(self).show_settings && !old(self).was_settings_open),
            *final(self) == (WindowManager { was_settings_open: old(self).show_settings, ..*old(self) }),
    {
        let r = self.show_settings && !self.was_settings_open;
        self.was_settings_open = self.show_settings;
        r
    }

    /// Closes the settings dialog after Save (`save`) or Cancel/Escape
    /// (`cancel`). A save hands the edited settings out and keeps them as
    /// the saved ones; a cancel puts the saved ones back under edit.
    pub fn finish_settings(&mut self, save: bool, cancel: bool, actions: &mut WindowActions)
        ensures
            (save || cancel) ==> !final(self).show_settings,
            !(save || cancel) ==> *final(self) == *old(self) && *final(actions) == *old(actions),
            save ==> {
                &&& (final(actions).default_shell_cmd matches Some(s) && s@ == old(self).editing_default_shell_cmd@)
                &&& (final(actions).default_agent_cmd matches Some(s) && s@ == old(self).editing_default_agent_cmd@)
                &&& final(actions).run_as_login_shell == Some(old(self).editing_run_as_login_shell)
                &&& final(actions).should_save_settings
                &&& final(self).saved_default_shell_cmd@ == old(self).editing_default_shell_cmd@
                &&& final(self).saved_default_agent_cmd@ == old(self).editing_default_agent_cmd@
                &&& final(self).saved_run_as_login_shell == old(self).editing_run_as_login_shell
            },
            !save ==> *final(actions) == *old(actions),
            cancel ==> {
                &&& final(self).editing_default_shell_cmd@ == if save {
                    old(self).editing_default_shell_cmd@
                } else {
                    old(self).saved_default_shell_cmd@
                }
                &&& final(self).editing_default_agent_cmd@ == if save {
                    old(self).editing_default_agent_cmd@
                } else {
                    old(self).saved_default_agent_cmd@
                }
                &&& final(self).editing_run_as_login_shell == if save {
                    old(self).editing_run_as_login_shell
                } else {
                    old(self).saved_run_as_login_shell
                }
            },
    {
        if save {
            actions.default_shell_cmd = Some(self.editing_default_shell_cmd.clone());
            actions.default_agent_cmd = Some(self.editing_default_agent_cmd.clone());
            actions.run_as_login_shell = Some(self.editing_run_as_login_shell);
            self.saved_default_shell_cmd = self.editing_default_shell_cmd.clone();
            self.saved_default_agent_cmd = self.editing_default_agent_cmd.clone();
            self.saved_run_as_login_shell = self.editing_run_as_login_shell;
            actions.should_save_settings = true;
            self.show_settings = false;
        }
        if cancel {
            self.editing_default_shell_cmd = self.saved_default_shell_cmd.clone();
            self.editing_default_agent_cmd = self.saved_default_agent_cmd.clone();
            self.editing_run_as_login_shell = self.saved_run_as_login_shell;
            self.show_settings = false;
        }
    }
}

} // verus!
