//! Workspace core of a multi-session terminal application: projects ("groups")
//! holding ordered sessions ("tabs"), the active selection, the persisted
//! snapshot, the scroll-state heuristics and the shell fallback rules.

pub mod config;
pub mod hotkeys;
pub mod manager;
pub mod scroll;
pub mod shell;
pub mod tab;
pub mod text;
pub mod windows;

pub use scroll::{ScrollState, TabScrollState};
pub use shell::{shell_candidates, pick_shell, next_probe, ProbeStep, shell_args, fallback_after_failure, DEFAULT_SHELL_CMD, BARE_SHELL_CMD, LOGIN_ARG};
pub use tab::{Tab, TerminalBackendExt};
pub use manager::{TabInfo, TabGroup, GroupModel, LiveGroup, WorkspaceError, TabManager, SpawnRequest, RestoredGroup, BackendEvent};
pub use config::{Settings, RecentProject, RecentProjects, default_show_terminal_lines, default_show_fps, default_show_sidebar, default_run_as_login_shell, default_show_debug, default_shell_cmd, default_agent_cmd, DEFAULT_AGENT_CMD, MAX_RECENT_PROJECTS};
pub use hotkeys::{get_hotkeys, KeyInput, KeyboardEvents};
pub use windows::{WindowActions, PanelActions, WindowManager};
