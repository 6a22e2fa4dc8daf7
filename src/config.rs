use vstd::prelude::*;
use vstd::string::StringExecFns;
use crate::shell::DEFAULT_SHELL_CMD;

verus! {

pub const DEFAULT_SHOW_TERMINAL_LINES: bool = true;

pub const DEFAULT_SHOW_FPS: bool = true;

pub const DEFAULT_SHOW_SIDEBAR: bool = true;

pub const DEFAULT_RUN_AS_LOGIN_SHELL: bool = false;

pub const DEFAULT_SHOW_DEBUG: bool = true;

/// The command agent sessions run unless configured otherwise.
pub const DEFAULT_AGENT_CMD: &'static str = "opencode";

/// How many recent projects are remembered.
pub const MAX_RECENT_PROJECTS: usize = 20;

pub fn default_show_terminal_lines() -> (r: bool)
    ensures
        r == DEFAULT_SHOW_TERMINAL_LINES,
{
    DEFAULT_SHOW_TERMINAL_LINES
}

pub fn default_show_fps() -> (r: bool)
    ensures
        r == DEFAULT_SHOW_FPS,
{
    DEFAULT_SHOW_FPS
}

pub fn default_show_sidebar() -> (r: bool)
    ensures
        r == DEFAULT_SHOW_SIDEBAR,
{
    DEFAULT_SHOW_SIDEBAR
}

pub fn default_run_as_login_shell() -> (r: bool)
    ensures
        r == DEFAULT_RUN_AS_LOGIN_SHELL,
{
    DEFAULT_RUN_AS_LOGIN_SHELL
}

pub fn default_show_debug() -> (r: bool)
    ensures
        r == DEFAULT_SHOW_DEBUG,
{
    DEFAULT_SHOW_DEBUG
}

pub fn default_shell_cmd() -> (r: String)
    ensures
        r@ == DEFAULT_SHELL_CMD@,
{
    String::from_str(DEFAULT_SHELL_CMD)
}

pub fn default_agent_cmd() -> (r: String)
    ensures
        r@ == DEFAULT_AGENT_CMD@,
{
    String::from_str(DEFAULT_AGENT_CMD)
}

/// The user's settings.
#[derive(Default, Clone)]
pub struct Settings {
    pub show_terminal_lines: bool,
    pub show_fps: bool,
    pub show_sidebar: bool,
    pub run_as_login_shell: bool,
    pub default_shell_cmd: String,
    pub default_agent_cmd: String,
}

impl Settings {
    /// The settings a missing field of the settings file takes.
    pub fn with_defaults() -> (r: Settings)
        ensures
            r.show_terminal_lines == DEFAULT_SHOW_TERMINAL_LINES,
            r.show_fps == DEFAULT_SHOW_FPS,
            r.show_sidebar == DEFAULT_SHOW_SIDEBAR,
            r.run_as_login_shell == DEFAULT_RUN_AS_LOGIN_SHELL,
            r.default_shell_cmd@ == DEFAULT_SHELL_CMD@,
            r.default_agent_cmd@ == DEFAULT_AGENT_CMD@,
    {
        Settings {
            show_terminal_lines: default_show_terminal_lines(),
            show_fps: default_show_fps(),
            show_sidebar: default_show_sidebar(),
            run_as_login_shell: default_run_as_login_shell(),
            default_shell_cmd: default_shell_cmd(),
            default_agent_cmd: default_agent_cmd(),
        }
    }
}

/// A project opened before.
#[derive(Default, Clone)]
pub struct RecentProject {
    pub name: String,
    pub path: String,
}

/// The projects opened most recently, newest first.
#[derive(Default, Clone)]
pub struct RecentProjects {
    pub projects: Vec<RecentProject>,
}

/// The (name, path) views of a list of projects.
pub open spec fn projects_view(v: Seq<RecentProject>) -> Seq<(Seq<char>, Seq<char>)> {
    v.map_values(|p: RecentProject| (p.name@, p.path@))
}

/// The entries of `s` whose path is not `path`, in order.
pub open spec fn without_path(s: Seq<(Seq<char>, Seq<char>)>, path: Seq<char>) -> Seq<(Seq<char>, Seq<char>)>
    decreases s.len(),
{
    if s.len() == 0 {
        s
    } else {
        let rest = without_path(s.drop_last(), path);
        if s.last().1 == path {
            rest
        } else {
            rest.push(s.last())
        }
    }
}

/// The list after opening `name` at `path`: that entry first, every older
/// entry for the same path dropped, and at most the allowed number kept.
pub open spec fn after_add(
    s: Seq<(Seq<char>, Seq<char>)>,
    name: Seq<char>,
    path: Seq<char>,
) -> Seq<(Seq<char>, Seq<char>)> {
    let l = seq![(name, path)] + without_path(s, path);
    if l.len() > MAX_RECENT_PROJECTS {
        l.take(MAX_RECENT_PROJECTS as int)
    } else {
        l
    }
}

impl RecentProjects {
    pub fn new() -> (r: RecentProjects)
        ensures
            r.projects@.len() == 0,
    {
        RecentProjects { projects: Vec::new() }
    }

    /// Records that the project `name` at `path` was opened.
    pub fn add_project(&mut self, name: String, path: String)
        ensures
            projects_view(final(self).projects@) == after_add(projects_view(old(self).projects@), name@, path@),
    {
        let ghost before = projects_view(self.projects@);
        let mut kept: Vec<RecentProject> = Vec::new();
        let mut old_projects: Vec<RecentProject> = Vec::new();
        std::mem::swap(&mut old_projects, &mut self.projects);
        let mut i: usize = 0;
        while i < old_projects.len()
            invariant
                i <= old_projects@.len(),
                projects_view(old_projects@) == before,
                projects_view(kept@) == without_path(before.take(i as int), path@),
            decreases old_projects.len() - i,
        {
            let p = &old_projects[i];
            proof {
                assert(before.take(i + 1).drop_last() =~= before.take(i as int));
                assert(before.take(i + 1).last() == (p.name@, p.path@));
            }
            if !(p.path == path) {
                kept.push(RecentProject { name: p.name.clone(), path: p.path.clone() });
            }
            i = i + 1;
            proof {
                assert(projects_view(kept@) =~= without_path(before.take(i as int), path@));
            }
        }
        assert(before.take(i as int) =~= before);
        kept.insert(0, RecentProject { name, path });
        assert(projects_view(kept@) =~= seq![(name@, path@)] + without_path(before, path@));
        if kept.len() > MAX_RECENT_PROJECTS {
            kept.truncate(MAX_RECENT_PROJECTS);
        }
        self.projects = kept;
        assert(projects_view(self.projects@) =~= after_add(before, name@, path@));
    }
}

} // verus!
