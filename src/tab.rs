use vstd::prelude::*;
use vstd::string::StringExecFns;
use crate::scroll::{ScrollState, TabScrollState};
use crate::text::{decimal, decimal_digits};

verus! {

/// What the workspace reads from and asks of a session's terminal backend.
/// The backend is a collaborator: nothing is assumed of what it reports.
pub trait TerminalBackendExt {
    /// Lines held by the backend: history and screen together.
    fn total_lines(&self) -> usize;

    /// Lines of the visible screen.
    fn screen_lines(&self) -> usize;

    /// Whether the alternate screen buffer is shown.
    fn is_alternate_screen(&self) -> bool;

    /// Moves the view to the live tail.
    fn scroll_to_bottom(&mut self);

    /// Drops the scrollback history.
    fn clear_history(&mut self);
}

/// The title a session starts with.
pub open spec fn initial_title(id: u64) -> Seq<char> {
    "tab: "@ + decimal_digits(id as nat)
}

/// One session: its backend, exclusively owned, and its display state.
pub struct Tab<B> {
    pub id: u64,
    pub backend: B,
    pub title: String,
    pub scroll_state: TabScrollState,
    pub was_alternate_last_frame: bool,
    pub just_created: bool,
    pub is_agent: bool,
}

impl<B: TerminalBackendExt> Tab<B> {
    /// A fresh session around a backend that was spawned for it.
    pub fn new(id: u64, backend: B, is_agent: bool) -> (r: Tab<B>)
        ensures
            r.id == id,
            r.backend == backend,
            r.title@ == initial_title(id),
            r.scroll_state == (TabScrollState {
                normal: ScrollState { last_line_count: 0, user_scrolled_up: false },
                alternate: ScrollState { last_line_count: 0, user_scrolled_up: false },
            }),
            !r.was_alternate_last_frame,
            r.just_created,
            r.is_agent == is_agent,
    {
        proof {
            reveal_strlit("tab: ");
        }
        let title = String::from_str("tab: ").concat(decimal(id as u128).as_str());
        Tab {
            id,
            backend,
            title,
            scroll_state: TabScrollState {
                normal: ScrollState { last_line_count: 0, user_scrolled_up: false },
                alternate: ScrollState { last_line_count: 0, user_scrolled_up: false },
            },
            was_alternate_last_frame: false,
            just_created: true,
            is_agent,
        }
    }

    pub fn set_title(&mut self, title: String)
        ensures
            *final(self) == (Tab { title, ..*old(self) }),
    {
        self.title = title;
    }

    /// Whether the backend shows its alternate screen.
    pub fn is_alternate_screen(&self) -> bool {
        self.backend.is_alternate_screen()
    }

    /// Applies one frame's observation of the backend, given as plain values,
    /// and tells whether the buffer was cleared; the mode is remembered for
    /// the next frame.
    pub fn begin_frame(&mut self, is_alternate: bool, total_lines: usize) -> (cleared: bool)
        ensures
            cleared == old(self).scroll_state.clears(is_alternate, total_lines as int),
            final(self).scroll_state == old(self).scroll_state.after_frame(
                old(self).was_alternate_last_frame,
                is_alternate,
                total_lines,
            ),
            final(self).was_alternate_last_frame == is_alternate,
            final(self).id == old(self).id,
            final(self).backend == old(self).backend,
            final(self).title == old(self).title,
            final(self).just_created == old(self).just_created,
            final(self).is_agent == old(self).is_agent,
    {
        let was = self.was_alternate_last_frame;
        let cleared = self.scroll_state.observe_frame(was, is_alternate, total_lines);
        self.was_alternate_last_frame = is_alternate;
        cleared
    }

    /// Pins the buffer that the backend shows now back to the live tail.
    pub fn unpin_current(&mut self)
        ensures
            exists|alt: bool| final(self).scroll_state == old(self).scroll_state.unpinned(alt),
            final(self).id == old(self).id,
            final(self).backend == old(self).backend,
            final(self).title == old(self).title,
            final(self).was_alternate_last_frame == old(self).was_alternate_last_frame,
            final(self).just_created == old(self).just_created,
            final(self).is_agent == old(self).is_agent,
    {
        let alt = self.backend.is_alternate_screen();
        self.scroll_state.unpin(alt);
    }

    /// Consumes the flag that a session was just created: true only on the
    /// first call.
    pub fn take_just_created(&mut self) -> (r: bool)
        ensures
            r == old(self).just_created,
            *final(self) == (Tab { just_created: false, ..*old(self) }),
    {
        let r = self.just_created;
        self.just_created = false;
        r
    }
}

} // verus!
