//! Cursor and selection state for the textarea.
//!
//! Manages the caret position, text selection, and provides methods
//! for extending/collapsing selections.

use crate::buffer::{
    Position, TextBuffer, TextRange, at_column, end_of, left_of, pos_le, right_of, valid_pos,
    word_left_of, word_right_of,
};
use vstd::prelude::*;
use vstd::utf8::is_char_boundary_start_end_of_seq;

verus! {

/// The range between two positions, the earlier one first.
pub open spec fn ordered(a: Position, b: Position) -> TextRange {
    if pos_le(a, b) {
        TextRange { start: a, end: b }
    } else {
        TextRange { start: b, end: a }
    }
}

/// The caret and the anchor, if any, are valid positions of lines `v`.
pub open spec fn valid_cursor(v: Seq<Seq<u8>>, c: Cursor) -> bool {
    &&& valid_pos(v, c.position)
    &&& (c.anchor matches Some(a) ==> valid_pos(v, a))
}

/// Describes the cursor and optional selection in the textarea.
#[derive(Debug, Clone)]
pub struct Cursor {
    /// The current caret position (where text is inserted).
    pub position: Position,
    /// If set, defines the anchor of the selection. The selection range is
    /// between `anchor` and `position`.
    pub anchor: Option<Position>,
    /// The preferred column (in bytes) when moving vertically.
    /// This preserves the column when moving through lines of different lengths.
    pub preferred_col: usize,
}

impl Cursor {
    /// The selection, when there is an anchor: the range between the anchor
    /// and the caret.
    pub open spec fn selection_spec(self) -> Option<TextRange> {
        match self.anchor {
            Some(a) => Some(ordered(a, self.position)),
            None => None,
        }
    }

    /// There is an anchor, and it differs from the caret.
    pub open spec fn has_selection_spec(self) -> bool {
        match self.anchor {
            Some(a) => a != self.position,
            None => false,
        }
    }

    /// The cursor after moving the caret to `p`: extending keeps the anchor
    /// (or sets it to the old caret), not extending drops it; the preferred
    /// column becomes that of `p`.
    pub open spec fn moved_to(self, p: Position, extend: bool) -> Cursor {
        if extend {
            Cursor {
                position: p,
                anchor: Some(
                    match self.anchor {
                        Some(a) => a,
                        None => self.position,
                    },
                ),
                preferred_col: p.col,
            }
        } else {
            Cursor { position: p, anchor: None, preferred_col: p.col }
        }
    }

    /// Create a cursor at position (0, 0) with no selection.
    pub fn new() -> (res: Self)
        ensures
            res.position == Position::zero_spec(),
            res.anchor.is_none(),
            res.preferred_col == 0,
    {
        Self { position: Position::zero(), anchor: None, preferred_col: 0 }
    }

    /// Create a cursor at the given position.
    pub fn at(pos: Position) -> (res: Self)
        ensures
            res.position == pos,
            res.anchor.is_none(),
            res.preferred_col == pos.col,
    {
        Self { position: pos, anchor: None, preferred_col: pos.col }
    }

    /// Returns the selected text range, or None if no selection.
    pub fn selection(&self) -> (res: Option<TextRange>)
        ensures
            res == self.selection_spec(),
    {
        match self.anchor {
            Some(anchor) => Some(TextRange::new(anchor, self.position)),
            None => None,
        }
    }

    /// Returns true if there is an active selection.
    pub fn has_selection(&self) -> (res: bool)
        ensures
            res == self.has_selection_spec(),
    {
        match self.anchor {
            Some(a) => !(a.line == self.position.line && a.col == self.position.col),
            None => false,
        }
    }

    /// Set position and clear selection.
    pub fn set_position(&mut self, pos: Position)
        ensures
            *final(self) == old(self).moved_to(pos, false),
    {
        self.position = pos;
        self.anchor = None;
        self.preferred_col = pos.col;
    }

    /// Extend selection from current anchor (or set anchor to current position) to new position.
    pub fn select_to(&mut self, pos: Position)
        ensures
            *final(self) == old(self).moved_to(pos, true),
    {
        if self.anchor.is_none() {
            self.anchor = Some(self.position);
        }
        self.position = pos;
        self.preferred_col = pos.col;
    }

    /// Collapse selection to the caret position.
    pub fn collapse(&mut self)
        ensures
            final(self).position == old(self).position,
            final(self).anchor.is_none(),
            final(self).preferred_col == old(self).preferred_col,
    {
        self.anchor = None;
    }

    /// Set the selection range explicitly.
    pub fn set_selection(&mut self, range: TextRange)
        ensures
            final(self).anchor == Some(range.start),
            final(self).position == range.end,
            final(self).preferred_col == range.end.col,
    {
        self.anchor = Some(range.start);
        self.position = range.end;
        self.preferred_col = range.end.col;
    }

    /// Moves the caret to `new_pos`, extending the selection or not.
    fn go(&mut self, new_pos: Position, extend: bool)
        ensures
            *final(self) == old(self).moved_to(new_pos, extend),
    {
        if extend {
            self.select_to(new_pos);
        } else {
            self.set_position(new_pos);
        }
    }

    // ── Movement helpers ──────────────────────────────────

    /// Move cursor left. If `extend` is true, extends selection. Without
    /// `extend`, a selection collapses to its start.
    pub fn move_left(&mut self, buf: &TextBuffer, extend: bool)
        requires
            buf.wf(),
        ensures
            !extend && old(self).has_selection_spec() ==> *final(self) == old(self).moved_to(
                old(self).selection_spec()->0.start,
                false,
            ),
            !(!extend && old(self).has_selection_spec()) ==> *final(self) == old(self).moved_to(
                left_of(buf@, old(self).position),
                extend,
            ),
            valid_cursor(buf@, *old(self)) ==> valid_cursor(buf@, *final(self)),
    {
        if !extend && self.has_selection() {
            let sel = self.selection().unwrap();
            self.set_position(sel.start);
            return;
        }
        let new_pos = buf.move_left(self.position);
        self.go(new_pos, extend);
    }

    /// Move cursor right. If `extend` is true, extends selection. Without
    /// `extend`, a selection collapses to its end.
    pub fn move_right(&mut self, buf: &TextBuffer, extend: bool)
        requires
            buf.wf(),
        ensures
            !extend && old(self).has_selection_spec() ==> *final(self) == old(self).moved_to(
                old(self).selection_spec()->0.end,
                false,
            ),
            !(!extend && old(self).has_selection_spec()) ==> *final(self) == old(self).moved_to(
                right_of(buf@, old(self).position),
                extend,
            ),
            valid_cursor(buf@, *old(self)) ==> valid_cursor(buf@, *final(self)),
    {
        if !extend && self.has_selection() {
            let sel = self.selection().unwrap();
            self.set_position(sel.end);
            return;
        }
        let new_pos = buf.move_right(self.position);
        self.go(new_pos, extend);
    }

    /// Move cursor up. If `extend` is true, extends selection. The preferred
    /// column stays.
    pub fn move_up(&mut self, buf: &TextBuffer, extend: bool)
        requires
            buf.wf(),
            old(self).position.line <= buf@.len(),
        ensures
            ({
                let p = old(self).position;
                let target = if p.line == 0 {
                    Position::zero_spec()
                } else {
                    at_column(buf@, p.line - 1, old(self).preferred_col as int)
                };
                let m = old(self).moved_to(target, extend);
                *final(self) == (Cursor { preferred_col: old(self).preferred_col, ..m })
            }),
            valid_cursor(buf@, *old(self)) ==> valid_cursor(buf@, *final(self)),
    {
        let saved_col = self.preferred_col;
        let new_pos = buf.move_up(self.position, self.preferred_col);
        self.go(new_pos, extend);
        // Restore preferred_col so vertical movement is smooth.
        self.preferred_col = saved_col;
    }

    /// Move cursor down. If `extend` is true, extends selection. The preferred
    /// column stays.
    pub fn move_down(&mut self, buf: &TextBuffer, extend: bool)
        requires
            buf.wf(),
        ensures
            ({
                let p = old(self).position;
                let target = if p.line >= buf@.len() - 1 {
                    end_of(buf@)
                } else {
                    at_column(buf@, p.line + 1, old(self).preferred_col as int)
                };
                let m = old(self).moved_to(target, extend);
                *final(self) == (Cursor { preferred_col: old(self).preferred_col, ..m })
            }),
            valid_cursor(buf@, *old(self)) ==> valid_cursor(buf@, *final(self)),
    {
        let saved_col = self.preferred_col;
        let new_pos = buf.move_down(self.position, self.preferred_col);
        self.go(new_pos, extend);
        self.preferred_col = saved_col;
    }

    /// Move to start of line. If `extend` is true, extends selection.
    pub fn move_home(&mut self, buf: &TextBuffer, extend: bool)
        requires
            buf.wf(),
        ensures
            ({
                let p = old(self).position;
                let line = if p.line < buf@.len() { p.line as int } else { buf@.len() - 1 };
                *final(self) == old(self).moved_to(
                    Position { line: line as usize, col: 0 },
                    extend,
                )
            }),
            valid_cursor(buf@, *old(self)) ==> valid_cursor(buf@, *final(self)),
    {
        let new_pos = buf.line_start(self.position);
        self.go(new_pos, extend);
    }

    /// Move to end of line. If `extend` is true, extends selection.
    pub fn move_end(&mut self, buf: &TextBuffer, extend: bool)
        requires
            buf.wf(),
        ensures
            ({
                let p = old(self).position;
                let line = if p.line < buf@.len() { p.line as int } else { buf@.len() - 1 };
                *final(self) == old(self).moved_to(
                    Position { line: line as usize, col: buf@[line].len() as usize },
                    extend,
                )
            }),
            valid_cursor(buf@, *old(self)) ==> valid_cursor(buf@, *final(self)),
    {
        let new_pos = buf.line_end(self.position);
        self.go(new_pos, extend);
    }

    /// Move left by one word. If `extend` is true, extends selection.
    pub fn move_word_left(&mut self, buf: &TextBuffer, extend: bool)
        requires
            buf.wf(),
        ensures
            *final(self) == old(self).moved_to(word_left_of(buf@, old(self).position), extend),
    {
        let new_pos = buf.move_word_left(self.position);
        self.go(new_pos, extend);
    }

    /// Move right by one word. If `extend` is true, extends selection.
    pub fn move_word_right(&mut self, buf: &TextBuffer, extend: bool)
        requires
            buf.wf(),
        ensures
            *final(self) == old(self).moved_to(word_right_of(buf@, old(self).position), extend),
    {
        let new_pos = buf.move_word_right(self.position);
        self.go(new_pos, extend);
    }

    /// Move to the very start of the buffer.
    pub fn move_to_start(&mut self, _buf: &TextBuffer, extend: bool)
        ensures
            *final(self) == old(self).moved_to(Position::zero_spec(), extend),
            _buf.wf() && valid_cursor(_buf@, *old(self)) ==> valid_cursor(_buf@, *final(self)),
    {
        proof {
            if _buf.wf() {
                is_char_boundary_start_end_of_seq(_buf@[0]);
            }
        }
        let new_pos = Position::zero();
        self.go(new_pos, extend);
    }

    /// Move to the very end of the buffer.
    pub fn move_to_end(&mut self, buf: &TextBuffer, extend: bool)
        requires
            buf.wf(),
        ensures
            *final(self) == old(self).moved_to(end_of(buf@), extend),
            valid_cursor(buf@, *old(self)) ==> valid_cursor(buf@, *final(self)),
    {
        let new_pos = buf.end_position();
        self.go(new_pos, extend);
    }

    /// Select all text: the anchor at the start, the caret at the end.
    pub fn select_all(&mut self, buf: &TextBuffer)
        requires
            buf.wf(),
        ensures
            final(self).anchor == Some(Position::zero_spec()),
            final(self).position == end_of(buf@),
            final(self).preferred_col == end_of(buf@).col,
            valid_cursor(buf@, *final(self)),
    {
        proof {
            is_char_boundary_start_end_of_seq(buf@[0]);
        }
        let range = buf.select_all();
        self.set_selection(range);
    }
}

/// A selection runs from the earlier of anchor and caret to the later.
pub proof fn law_selection_ordered(c: Cursor)
    ensures
        c.selection_spec() matches Some(r) ==> pos_le(r.start, r.end),
        c.selection_spec() is Some <==> c.anchor is Some,
{
}

/// Moving without extending leaves no selection; extending keeps an anchor
/// that is set and otherwise anchors at the old caret.
pub proof fn law_moves_and_anchor(c: Cursor, p: Position)
    ensures
        !c.moved_to(p, false).has_selection_spec(),
        c.moved_to(p, false).selection_spec() is None,
        c.anchor matches Some(a) ==> c.moved_to(p, true).anchor == Some(a),
        c.anchor is None ==> c.moved_to(p, true).anchor == Some(c.position),
        c.moved_to(p, true).has_selection_spec() <==> c.moved_to(p, true).anchor != Some(p),
{
}

/// A move puts the caret at its target and makes the target's column the
/// preferred one, with or without extending the selection, so the next move
/// up or down aims at the column the caret was moved to.
pub proof fn law_move_sets_preferred_column(c: Cursor, p: Position, extend: bool)
    ensures
        c.moved_to(p, extend).position == p,
        c.moved_to(p, extend).preferred_col == p.col,
{
}

impl Default for Cursor {
    fn default() -> (res: Self)
        ensures
            res.position == Position::zero_spec(),
            res.anchor.is_none(),
            res.preferred_col == 0,
    {
        Self::new()
    }
}

} // verus!
