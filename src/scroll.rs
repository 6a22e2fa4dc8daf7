use vstd::prelude::*;

verus! {

/// Bookkeeping for one screen buffer of a session.
#[derive(Default)]
pub struct ScrollState {
    /// Total line count observed on the last frame this buffer was shown.
    pub last_line_count: usize,
    /// Whether the user has scrolled away from the live tail.
    pub user_scrolled_up: bool,
}

/// Whether `current` is a drop below a tenth of `last`, counted only once a
/// line was seen: the sign that the buffer was cleared out of band.
pub open spec fn is_clear_drop(last: int, current: int) -> bool {
    last > 0 && 10 * current < last
}

impl ScrollState {
    /// Whether a frame reporting `current_lines` lines means that the buffer
    /// was cleared since the last frame.
    pub fn detect_clear(&self, current_lines: usize) -> (r: bool)
        ensures
            r == is_clear_drop(self.last_line_count as int, current_lines as int),
    {
        self.last_line_count > 0 && (current_lines as u128) * 10 < self.last_line_count as u128
    }
}

/// The two independent buffer states of a session: the normal screen, with
/// history, and the alternate screen of full-screen programs.
#[derive(Default)]
pub struct TabScrollState {
    pub normal: ScrollState,
    pub alternate: ScrollState,
}

impl TabScrollState {
    /// The state of the buffer selected by `is_alternate`.
    pub open spec fn selected(&self, is_alternate: bool) -> ScrollState {
        if is_alternate {
            self.alternate
        } else {
            self.normal
        }
    }

    /// `self` with the buffer selected by `is_alternate` replaced by `s`.
    pub open spec fn with_selected(&self, is_alternate: bool, s: ScrollState) -> TabScrollState {
        if is_alternate {
            TabScrollState { normal: self.normal, alternate: s }
        } else {
            TabScrollState { normal: s, alternate: self.alternate }
        }
    }

    /// `self` with the selected buffer pinned back to the live tail.
    pub open spec fn unpinned(&self, is_alternate: bool) -> TabScrollState {
        self.with_selected(
            is_alternate,
            ScrollState { user_scrolled_up: false, ..self.selected(is_alternate) },
        )
    }

    /// Whether a frame in the given mode reporting `total_lines` lines is a
    /// clear: only the normal buffer is watched.
    pub open spec fn clears(&self, is_alternate: bool, total_lines: int) -> bool {
        !is_alternate && is_clear_drop(self.normal.last_line_count as int, total_lines)
    }

    /// The states after a frame: on a mode switch or a clear the buffer now
    /// shown is reset; in every case it records the new line count, and the
    /// other buffer is left as it was.
    pub open spec fn after_frame(
        &self,
        was_alternate: bool,
        is_alternate: bool,
        total_lines: usize,
    ) -> TabScrollState {
        let reset = was_alternate != is_alternate || self.clears(is_alternate, total_lines as int);
        let cur = self.selected(is_alternate);
        self.with_selected(
            is_alternate,
            ScrollState {
                last_line_count: total_lines,
                user_scrolled_up: if reset {
                    false
                } else {
                    cur.user_scrolled_up
                },
            },
        )
    }

    /// The state of the buffer shown in the given mode, to read or change.
    pub fn current(&mut self, is_alternate: bool) -> (r: &mut ScrollState)
        ensures
            *r == old(self).selected(is_alternate),
            *final(self) == old(self).with_selected(is_alternate, *final(r)),
    {
        if is_alternate {
            &mut self.alternate
        } else {
            &mut self.normal
        }
    }

    /// Applies one frame's observation and tells whether it was a clear, on
    /// which the caller moves the view to the bottom and drops the history.
    pub fn observe_frame(&mut self, was_alternate: bool, is_alternate: bool, total_lines: usize) -> (cleared: bool)
        ensures
            cleared == old(self).clears(is_alternate, total_lines as int),
            *final(self) == old(self).after_frame(was_alternate, is_alternate, total_lines),
    {
        let mode_switched = was_alternate != is_alternate;
        let cleared = !is_alternate && self.normal.detect_clear(total_lines);
        let state = self.current(is_alternate);
        if cleared || mode_switched {
            state.user_scrolled_up = false;
        }
        state.last_line_count = total_lines;
        cleared
    }

    /// Records, after layout, whether the view sits at the bottom. Only the
    /// normal buffer has a history to scroll away into.
    pub fn record_view_position(&mut self, is_alternate: bool, at_bottom: bool)
        ensures
            is_alternate ==> *final(self) == *old(self),
            !is_alternate ==> final(self).alternate == old(self).alternate
                && final(self).normal.last_line_count == old(self).normal.last_line_count
                && final(self).normal.user_scrolled_up == !at_bottom,
    {
        if !is_alternate {
            self.normal.user_scrolled_up = !at_bottom;
        }
    }

    /// Pins the buffer shown in the given mode back to the live tail.
    pub fn unpin(&mut self, is_alternate: bool)
        ensures
            *final(self) == old(self).unpinned(is_alternate),
    {
        let state = self.current(is_alternate);
        state.user_scrolled_up = false;
    }
}

/// The states after a run of frames, each in the mode `modes[k]` and
/// reporting `counts[k]` lines, starting with `was_alternate` as the mode of
/// the frame before.
pub open spec fn run_frames(
    s: TabScrollState,
    was_alternate: bool,
    modes: Seq<bool>,
    counts: Seq<usize>,
) -> TabScrollState
    decreases modes.len(),
{
    if modes.len() == 0 || counts.len() == 0 {
        s
    } else {
        run_frames(
            s.after_frame(was_alternate, modes[0], counts[0]),
            modes[0],
            modes.drop_first(),
            counts.drop_first(),
        )
    }
}

/// The buffers never mix: however many frames run in one mode, whatever the
/// mode before them, the buffer of the other mode keeps exactly its values.
/// So after a stretch on the alternate screen the normal buffer is as it was
/// left, and the frame that switches back starts from those values.
pub proof fn lemma_mode_switch_isolation(
    s: TabScrollState,
    was_alternate: bool,
    mode: bool,
    modes: Seq<bool>,
    counts: Seq<usize>,
)
    requires
        forall|k: int| 0 <= k < modes.len() ==> modes[k] == mode,
    ensures
        run_frames(s, was_alternate, modes, counts).selected(!mode) == s.selected(!mode),
    decreases modes.len(),
{
    if modes.len() > 0 && counts.len() > 0 {
        let s1 = s.after_frame(was_alternate, modes[0], counts[0]);
        assert(s1.selected(!mode) == s.selected(!mode));
        lemma_mode_switch_isolation(s1, modes[0], mode, modes.drop_first(), counts.drop_first());
    }
}

/// Coming back to the normal screen after any stretch on the alternate one
/// re-baselines the normal buffer on the reported count, pinned to the tail,
/// and leaves the alternate buffer as the stretch left it.
pub proof fn lemma_return_to_normal(s: TabScrollState, modes: Seq<bool>, counts: Seq<usize>, total: usize)
    requires
        modes.len() > 0,
        modes.len() == counts.len(),
        forall|k: int| 0 <= k < modes.len() ==> modes[k],
    ensures
        ({
            let a = run_frames(s, false, modes, counts);
            &&& a.normal == s.normal
            &&& a.after_frame(true, false, total) == (TabScrollState {
                normal: ScrollState { last_line_count: total, user_scrolled_up: false },
                alternate: a.alternate,
            })
        }),
{
    lemma_mode_switch_isolation(s, false, true, modes, counts);
}

} // verus!
