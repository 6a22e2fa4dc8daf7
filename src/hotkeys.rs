use vstd::prelude::*;

verus! {

/// The key bindings and what they do, ordered by key.
pub open spec fn hotkey_table() -> Seq<(Seq<char>, Seq<char>)> {
    seq![
        ("Ctrl + Shift + A"@, "Add new agent tab"@),
        ("Ctrl + Shift + End"@, "Scroll terminal to bottom"@),
        ("Ctrl + Shift + Home"@, "Scroll terminal to top"@),
        ("Ctrl + Shift + N"@, "Add new terminal tab"@),
        ("Ctrl + Shift + Page Down"@, "Scroll terminal one page down"@),
        ("Ctrl + Shift + Page Up"@, "Scroll terminal one page up"@),
        ("Ctrl + Shift + Q"@, "Close current tab"@),
        ("Ctrl + Shift + Tab"@, "Switch to previous tab"@),
        ("Ctrl + Tab"@, "Switch to next tab"@),
    ]
}

/// The key bindings, as (key, description) pairs ordered by key.
pub fn get_hotkeys() -> (r: Vec<(&'static str, &'static str)>)
    ensures
        r@.map_values(|p: (&'static str, &'static str)| (p.0@, p.1@)) == hotkey_table(),
{
    let mut r: Vec<(&'static str, &'static str)> = Vec::new();
    r.push(("Ctrl + Shift + A", "Add new agent tab"));
    r.push(("Ctrl + Shift + End", "Scroll terminal to bottom"));
    r.push(("Ctrl + Shift + Home", "Scroll terminal to top"));
    r.push(("Ctrl + Shift + N", "Add new terminal tab"));
    r.push(("Ctrl + Shift + Page Down", "Scroll terminal one page down"));
    r.push(("Ctrl + Shift + Page Up", "Scroll terminal one page up"));
    r.push(("Ctrl + Shift + Q", "Close current tab"));
    r.push(("Ctrl + Shift + Tab", "Switch to previous tab"));
    r.push(("Ctrl + Tab", "Switch to next tab"));
    assert(r@.map_values(|p: (&'static str, &'static str)| (p.0@, p.1@)) =~= hotkey_table());
    r
}

/// The keys pressed this frame, with the modifiers held.
pub struct KeyInput {
    pub tab: bool,
    pub n: bool,
    pub a: bool,
    pub q: bool,
    pub home: bool,
    pub end: bool,
    pub page_up: bool,
    pub page_down: bool,
    pub ctrl: bool,
    pub shift: bool,
}

/// The workspace commands asked for by the keyboard this frame.
pub struct KeyboardEvents {
    pub switch_to_next_tab: bool,
    pub switch_to_prev_tab: bool,
    pub add_terminal_tab: bool,
    pub add_agent_tab: bool,
    pub close_tab: bool,
    pub scroll_to_top: bool,
    pub scroll_to_bottom: bool,
    pub scroll_page_up: bool,
    pub scroll_page_down: bool,
}

impl KeyboardEvents {
    /// Reads the commands from the keys: Ctrl+Tab cycles (back with Shift);
    /// with Ctrl+Shift, Q closes the tab, and N, A, Home, End, Page Up and
    /// Page Down act only while a group is active.
    pub fn from_input(k: &KeyInput, active_group_exists: bool) -> (r: KeyboardEvents)
        ensures
            r.switch_to_next_tab == (k.tab && k.ctrl && !k.shift),
            r.switch_to_prev_tab == (k.tab && k.ctrl && k.shift),
            r.add_terminal_tab == (active_group_exists && k.n && k.ctrl && k.shift),
            r.add_agent_tab == (active_group_exists && k.a && k.ctrl && k.shift),
            r.close_tab == (k.q && k.ctrl && k.shift),
            r.scroll_to_top == (active_group_exists && k.home && k.ctrl && k.shift),
            r.scroll_to_bottom == (active_group_exists && k.end && k.ctrl && k.shift),
            r.scroll_page_up == (active_group_exists && k.page_up && k.ctrl && k.shift),
            r.scroll_page_down == (active_group_exists && k.page_down && k.ctrl && k.shift),
    {
        let chord = k.ctrl && k.shift;
        KeyboardEvents {
            switch_to_next_tab: k.tab && k.ctrl && !k.shift,
            switch_to_prev_tab: k.tab && k.ctrl && k.shift,
            add_terminal_tab: active_group_exists && k.n && chord,
            add_agent_tab: active_group_exists && k.a && chord,
            close_tab: k.q && chord,
            scroll_to_top: active_group_exists && k.home && chord,
            scroll_to_bottom: active_group_exists && k.end && chord,
            scroll_page_up: active_group_exists && k.page_up && chord,
            scroll_page_down: active_group_exists && k.page_down && chord,
        }
    }
}

} // verus!
