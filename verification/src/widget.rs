//! The viewer state and its key-driven state machine: a window offset into
//! the backing store, the rendered window of lines, a scroll history that
//! makes backward scrolling possible, and a 2-D cursor that always lands on a
//! valid character cell of the window.

use vstd::prelude::*;

use crate::command::{command_action, command_intent};
use crate::pagination::{
    lemma_complete_lines_no_newline, paginate, rendered_lines, serialized,
    lemma_serialized_push, NEWLINE,
};
use crate::{InputMode, KeyAction, KeyEvent};

verus! {

/// The mathematical value of a [`TextWidget`]: the same state with the
/// rendered lines, the scroll history and the pending command line as
/// sequences.
#[verifier::ext_equal]
pub struct WState {
    /// Viewport height in rows.
    pub rows: u16,
    /// Viewport width in columns.
    pub cols: u16,
    /// Byte offset into the backing store of the top-left rendered character.
    pub offset: u64,
    /// Byte offset at which the window is written back.
    pub line: u64,
    /// Cursor column within the current line.
    pub cursor_col: u16,
    /// Cursor row within the rendered window.
    pub cursor_row: u16,
    /// Whether a render pass is pending.
    pub dirty: bool,
    /// The rendered window, top row first.
    pub buff: Seq<Seq<u8>>,
    /// Byte lengths of the lines scrolled above the window, oldest first.
    pub hist: Seq<usize>,
    /// The input mode.
    pub mode: InputMode,
    /// The command line accumulated while in command mode.
    pub pending: Seq<char>,
}

/// Total of the scroll history: how many bytes the window offset lies past
/// the position it had when the history was empty.
pub open spec fn hist_total(hist: Seq<usize>) -> int
    decreases hist.len(),
{
    if hist.len() == 0 {
        0
    } else {
        hist_total(hist.drop_last()) + hist.last()
    }
}

pub proof fn lemma_hist_total_nonneg(hist: Seq<usize>)
    ensures
        hist_total(hist) >= 0,
        hist.len() > 0 ==> hist_total(hist) >= hist.last(),
    decreases hist.len(),
{
    if hist.len() > 0 {
        lemma_hist_total_nonneg(hist.drop_last());
    }
}

pub proof fn lemma_hist_total_push(hist: Seq<usize>, x: usize)
    ensures
        hist_total(hist.push(x)) == hist_total(hist) + x,
{
    assert(hist.push(x).drop_last() =~= hist);
    assert(hist.push(x).last() == x);
}

/// The greatest column the cursor may occupy on a line of `len` cells.
pub open spec fn last_col(len: int) -> int {
    if len == 0 {
        0
    } else {
        len - 1
    }
}

/// The column the cursor keeps after being clamped to a line of `len` cells.
pub open spec fn clamp_col(col: u16, len: int) -> u16 {
    if col <= last_col(len) {
        col
    } else {
        last_col(len) as u16
    }
}

/// Length of the line the cursor stands on; 0 when the window is empty.
pub open spec fn cur_line_len(s: WState) -> int {
    if s.buff.len() == 0 {
        0
    } else {
        s.buff[s.cursor_row as int].len() as int
    }
}

/// Well-formedness of the viewer state: the cursor lies on a valid cell of
/// the rendered window, the window offset equals the total of the scroll
/// history, no rendered line holds a newline, and the window fits the row
/// index type.
pub open spec fn wf(s: WState) -> bool {
    &&& if s.buff.len() == 0 {
        s.cursor_row == 0
    } else {
        (s.cursor_row as int) < s.buff.len()
    }
    &&& (s.cursor_col as int) <= last_col(cur_line_len(s))
    &&& s.offset as int == hist_total(s.hist)
    &&& forall|i: int, j: int|
        0 <= i < s.buff.len() && 0 <= j < s.buff[i].len() ==> #[trigger] s.buff[i][j] != NEWLINE
    &&& s.buff.len() <= u16::MAX as int
}

/// The machine-width bound needed before a forward scroll: advancing the
/// window past the top line must not overflow the offset or a history entry.
pub open spec fn scroll_fits(s: WState) -> bool {
    s.buff.len() > 0 ==> {
        &&& s.buff[0].len() + 1 <= usize::MAX
        &&& s.offset + s.buff[0].len() + 1 <= u64::MAX
    }
}

/// Scroll the window forward past its top line: remember the line's byte
/// length (with its newline) on the history and advance the offset by it.
pub open spec fn scroll_forward(s: WState) -> WState {
    let adv = (s.buff[0].len() + 1) as usize;
    WState { offset: (s.offset + adv) as u64, hist: s.hist.push(adv), dirty: true, ..s }
}

/// Scroll the window backward: take the last remembered line length off the
/// history and move the offset back by it. Without history nothing happens.
pub open spec fn scroll_backward(s: WState) -> WState {
    if s.hist.len() == 0 {
        s
    } else {
        WState {
            offset: (s.offset - s.hist.last()) as u64,
            hist: s.hist.drop_last(),
            dirty: true,
            ..s
        }
    }
}

/// Move the cursor one row up; at the top of the window, scroll backward.
pub open spec fn move_up(s: WState) -> WState {
    if s.cursor_row > 0 {
        let r = (s.cursor_row - 1) as u16;
        WState {
            cursor_row: r,
            cursor_col: clamp_col(s.cursor_col, s.buff[r as int].len() as int),
            dirty: true,
            ..s
        }
    } else {
        scroll_backward(s)
    }
}

/// Move the cursor one row down; at the last row of a non-empty window,
/// scroll forward instead, keeping the row where it is.
pub open spec fn move_down(s: WState) -> WState {
    if s.buff.len() > 0 && (s.cursor_row as int) < s.buff.len() - 1 {
        let r = (s.cursor_row + 1) as u16;
        WState {
            cursor_row: r,
            cursor_col: clamp_col(s.cursor_col, s.buff[r as int].len() as int),
            dirty: true,
            ..s
        }
    } else if s.buff.len() > 0 {
        scroll_forward(s)
    } else {
        s
    }
}

/// Move the cursor one row down without leaving the window; unlike
/// [`move_down`], never scrolls.
pub open spec fn step_down(s: WState) -> WState {
    if s.buff.len() > 0 && (s.cursor_row as int) < s.buff.len() - 1 {
        let r = (s.cursor_row + 1) as u16;
        WState {
            cursor_row: r,
            cursor_col: clamp_col(s.cursor_col, s.buff[r as int].len() as int),
            dirty: true,
            ..s
        }
    } else {
        s
    }
}

/// Move the cursor one column left, stopping at column 0.
pub open spec fn move_left(s: WState) -> WState {
    if s.cursor_col > 0 {
        WState { cursor_col: (s.cursor_col - 1) as u16, dirty: true, ..s }
    } else {
        s
    }
}

/// Move the cursor one column right, stopping at the last cell of the line.
pub open spec fn move_right(s: WState) -> WState {
    if (s.cursor_col as int) < last_col(cur_line_len(s)) && s.cursor_col < u16::MAX {
        WState { cursor_col: (s.cursor_col + 1) as u16, dirty: true, ..s }
    } else {
        s
    }
}

/// One step of the state machine: the state after a key, and the action the
/// surrounding program must perform for it.
pub open spec fn spec_step(s: WState, key: KeyEvent) -> (WState, KeyAction) {
    match s.mode {
        InputMode::Normal => match key {
            KeyEvent::Char(c) => if c == 'k' {
                (move_up(s), KeyAction::Nothing)
            } else if c == 'h' {
                (move_left(s), KeyAction::Nothing)
            } else if c == 'j' {
                (move_down(s), KeyAction::Nothing)
            } else if c == 'l' || c == ' ' {
                (move_right(s), KeyAction::Nothing)
            } else if c == 'i' {
                (s, KeyAction::Insert)
            } else if c == 'A' {
                if s.buff.len() > 0 {
                    (scroll_forward(s), KeyAction::Nothing)
                } else {
                    (s, KeyAction::Nothing)
                }
            } else if c == 'B' {
                (scroll_backward(s), KeyAction::Nothing)
            } else if c == ':' {
                (
                    WState { mode: InputMode::Command, pending: Seq::empty(), dirty: true, ..s },
                    KeyAction::Nothing,
                )
            } else {
                (s, KeyAction::Nothing)
            },
            KeyEvent::Enter => (step_down(s), KeyAction::Nothing),
            _ => (s, KeyAction::Nothing),
        },
        InputMode::Command => match key {
            KeyEvent::Enter => (
                WState { mode: InputMode::Normal, pending: Seq::empty(), ..s },
                command_action(s.pending),
            ),
            KeyEvent::Backspace => if s.pending.len() > 0 {
                (WState { pending: s.pending.drop_last(), ..s }, KeyAction::Erase)
            } else {
                (s, KeyAction::Nothing)
            },
            KeyEvent::Char(c) => (WState { pending: s.pending.push(c), ..s }, KeyAction::Echo(c)),
            KeyEvent::Other => (s, KeyAction::Nothing),
        },
    }
}

/// The state a render pass leaves behind: the window rebuilt from the chunk,
/// the cursor clamped onto it, and the dirty flag cleared.
pub open spec fn rendered_state(s: WState, chunk: Seq<u8>) -> WState {
    let buff = rendered_lines(chunk, s.rows as int);
    let row = if buff.len() == 0 {
        0u16
    } else if (s.cursor_row as int) < buff.len() {
        s.cursor_row
    } else {
        (buff.len() - 1) as u16
    };
    let col = clamp_col(s.cursor_col, if buff.len() == 0 { 0 } else { buff[row as int].len() as int });
    WState { buff, cursor_row: row, cursor_col: col, dirty: false, ..s }
}

/// The viewer: a fixed-size character grid mapped onto a window of the file.
pub struct TextWidget {
    /// Viewport height in rows.
    pub rows: u16,
    /// Viewport width in columns.
    pub cols: u16,
    /// Byte offset into the backing store of the top-left rendered character.
    pub offset: u64,
    /// Byte offset at which the window is written back.
    pub line: u64,
    /// Cursor column within the current line.
    pub cursor_col: u16,
    /// Cursor row within the rendered window.
    pub cursor_row: u16,
    /// Whether a render pass is pending.
    pub is_update: bool,
    /// The rendered window, top row first.
    pub buff: Vec<Vec<u8>>,
    /// Byte lengths of the lines scrolled above the window, oldest first.
    pub lines_len: Vec<usize>,
    /// The input mode.
    pub mode: InputMode,
    /// The command line accumulated while in command mode.
    pub pending: Vec<char>,
}

impl View for TextWidget {
    type V = WState;

    open spec fn view(&self) -> WState {
        WState {
            rows: self.rows,
            cols: self.cols,
            offset: self.offset,
            line: self.line,
            cursor_col: self.cursor_col,
            cursor_row: self.cursor_row,
            dirty: self.is_update,
            buff: self.buff.deep_view(),
            hist: self.lines_len@,
            mode: self.mode,
            pending: self.pending@,
        }
    }
}

impl TextWidget {
    /// A fresh viewer for a viewport of `rows` by `cols` cells: window offset
    /// 0, cursor at the top-left, one empty line rendered, a render pending.
    pub fn new(rows: u16, cols: u16) -> (w: TextWidget)
        ensures
            w@ == (WState {
                rows,
                cols,
                offset: 0,
                line: 1,
                cursor_col: 0,
                cursor_row: 0,
                dirty: true,
                buff: seq![Seq::<u8>::empty()],
                hist: Seq::empty(),
                mode: InputMode::Normal,
                pending: Seq::empty(),
            }),
            wf(w@),
    {
        let mut buff: Vec<Vec<u8>> = Vec::new();
        buff.push(Vec::new());
        let w = TextWidget {
            rows,
            cols,
            offset: 0,
            line: 1,
            cursor_col: 0,
            cursor_row: 0,
            is_update: true,
            buff,
            lines_len: Vec::new(),
            mode: InputMode::Normal,
            pending: Vec::new(),
        };
        proof {
            assert(w.buff.deep_view()[0] =~= Seq::<u8>::empty());
            assert(w@.buff =~= seq![Seq::<u8>::empty()]);
            assert(w@ =~= (WState {
                rows,
                cols,
                offset: 0,
                line: 1,
                cursor_col: 0,
                cursor_row: 0,
                dirty: true,
                buff: seq![Seq::<u8>::empty()],
                hist: Seq::empty(),
                mode: InputMode::Normal,
                pending: Seq::empty(),
            }));
        }
        w
    }

    /// Clamps the cursor column onto the line the cursor stands on.
    fn reclamp_col(&mut self)
        requires
            if old(self)@.buff.len() == 0 {
                old(self)@.cursor_row == 0
            } else {
                (old(self)@.cursor_row as int) < old(self)@.buff.len()
            },
        ensures
            final(self)@ == (WState {
                cursor_col: clamp_col(old(self)@.cursor_col, cur_line_len(old(self)@)),
                ..old(self)@
            }),
    {
        if self.buff.len() == 0 {
            self.cursor_col = 0;
        } else {
            let len = self.buff[self.cursor_row as usize].len();
            if len == 0 {
                self.cursor_col = 0;
            } else if (self.cursor_col as usize) >= len {
                self.cursor_col = (len - 1) as u16;
            }
        }
        proof {
            assert(self@ =~= (WState {
                cursor_col: clamp_col(old(self)@.cursor_col, cur_line_len(old(self)@)),
                ..old(self)@
            }));
        }
    }

    /// Scrolls the window forward past its top line.
    fn do_scroll_forward(&mut self)
        requires
            wf(old(self)@),
            scroll_fits(old(self)@),
            old(self)@.buff.len() > 0,
        ensures
            final(self)@ == scroll_forward(old(self)@),
    {
        let adv: usize = self.buff[0].len() + 1;
        self.lines_len.push(adv);
        self.offset = self.offset + adv as u64;
        self.is_update = true;
        proof {
            assert(self@ =~= scroll_forward(old(self)@));
        }
    }

    /// Scrolls the window backward by the last remembered line length.
    fn do_scroll_backward(&mut self)
        requires
            wf(old(self)@),
        ensures
            final(self)@ == scroll_backward(old(self)@),
    {
        proof {
            lemma_hist_total_nonneg(old(self)@.hist);
        }
        match self.lines_len.pop() {
            Some(top) => {
                self.offset = self.offset - top as u64;
                self.is_update = true;
                proof {
                    assert(self@ =~= scroll_backward(old(self)@));
                }
            },
            None => {
                proof {
                    assert(self@ =~= scroll_backward(old(self)@));
                }
            },
        }
    }

    /// Feeds one key to the state machine and reports what the surrounding
    /// program must do for it.
    pub fn key_cb(&mut self, key: KeyEvent) -> (action: KeyAction)
        requires
            wf(old(self)@),
            scroll_fits(old(self)@),
        ensures
            final(self)@ == spec_step(old(self)@, key).0,
            action == spec_step(old(self)@, key).1,
            wf(final(self)@),
    {
        proof {
            lemma_step_preserves_wf(old(self)@, key);
        }
        match self.mode {
            InputMode::Normal => {
                match key {
                    KeyEvent::Char(c) => {
                        if c == 'k' {
                            if self.cursor_row > 0 {
                                self.cursor_row = self.cursor_row - 1;
                                self.reclamp_col();
                                self.is_update = true;
                                proof {
                                    assert(self@ =~= move_up(old(self)@));
                                }
                            } else {
                                self.do_scroll_backward();
                            }
                            KeyAction::Nothing
                        } else if c == 'h' {
                            if self.cursor_col > 0 {
                                self.cursor_col = self.cursor_col - 1;
                                self.is_update = true;
                            }
                            proof {
                                assert(self@ =~= move_left(old(self)@));
                            }
                            KeyAction::Nothing
                        } else if c == 'j' {
                            if self.buff.len() > 0 && (self.cursor_row as usize) < self.buff.len() - 1 {
                                self.cursor_row = self.cursor_row + 1;
                                self.reclamp_col();
                                self.is_update = true;
                                proof {
                                    assert(self@ =~= move_down(old(self)@));
                                }
                            } else if self.buff.len() > 0 {
                                self.do_scroll_forward();
                            }
                            KeyAction::Nothing
                        } else if c == 'l' || c == ' ' {
                            let len = if self.buff.len() == 0 {
                                0
                            } else {
                                self.buff[self.cursor_row as usize].len()
                            };
                            if len > 0 && (self.cursor_col as usize) < len - 1
                                && self.cursor_col < u16::MAX {
                                self.cursor_col = self.cursor_col + 1;
                                self.is_update = true;
                            }
                            proof {
                                assert(self@ =~= move_right(old(self)@));
                            }
                            KeyAction::Nothing
                        } else if c == 'i' {
                            KeyAction::Insert
                        } else if c == 'A' {
                            if self.buff.len() > 0 {
                                self.do_scroll_forward();
                            }
                            KeyAction::Nothing
                        } else if c == 'B' {
                            self.do_scroll_backward();
                            KeyAction::Nothing
                        } else if c == ':' {
                            self.mode = InputMode::Command;
                            self.pending = Vec::new();
                            self.is_update = true;
                            proof {
                                assert(self@ =~= spec_step(old(self)@, key).0);
                            }
                            KeyAction::Nothing
                        } else {
                            KeyAction::Nothing
                        }
                    },
                    KeyEvent::Enter => {
                        if self.buff.len() > 0 && (self.cursor_row as usize) < self.buff.len() - 1 {
                            self.cursor_row = self.cursor_row + 1;
                            self.reclamp_col();
                            self.is_update = true;
                            proof {
                                assert(self@ =~= step_down(old(self)@));
                            }
                        }
                        KeyAction::Nothing
                    },
                    _ => KeyAction::Nothing,
                }
            },
            InputMode::Command => {
                match key {
                    KeyEvent::Enter => self.process_cmd(),
                    KeyEvent::Backspace => {
                        if self.pending.len() > 0 {
                            self.pending.pop();
                            proof {
                                assert(self@ =~= spec_step(old(self)@, key).0);
                            }
                            KeyAction::Erase
                        } else {
                            KeyAction::Nothing
                        }
                    },
                    KeyEvent::Char(c) => {
                        self.pending.push(c);
                        proof {
                            assert(self@ =~= spec_step(old(self)@, key).0);
                        }
                        KeyAction::Echo(c)
                    },
                    KeyEvent::Other => KeyAction::Nothing,
                }
            },
        }
    }

    /// Finishes the pending command line: reads its intent, discards it and
    /// returns to normal mode.
    pub fn process_cmd(&mut self) -> (action: KeyAction)
        ensures
            final(self)@ == (WState {
                mode: InputMode::Normal,
                pending: Seq::empty(),
                ..old(self)@
            }),
            action == command_action(old(self)@.pending),
    {
        let action = command_intent(&self.pending);
        self.pending = Vec::new();
        self.mode = InputMode::Normal;
        proof {
            assert(self@ =~= (WState {
                mode: InputMode::Normal,
                pending: Seq::empty(),
                ..old(self)@
            }));
        }
        action
    }

    /// A render pass over a chunk read at the window offset. When a render is
    /// pending, the window is rebuilt wholesale from the chunk — never more
    /// lines than the viewport has rows — the cursor is clamped onto it, and
    /// the number of consumed bytes is returned. Otherwise nothing changes.
    pub fn render(&mut self, chunk: &Vec<u8>) -> (consumed: usize)
        requires
            wf(old(self)@),
        ensures
            old(self)@.dirty ==> final(self)@ == rendered_state(old(self)@, chunk@)
                && consumed == serialized(final(self)@.buff).len(),
            !old(self)@.dirty ==> final(self)@ == old(self)@ && consumed == 0,
            old(self)@.dirty ==> final(self)@.buff.len() <= old(self)@.rows as int,
            wf(final(self)@),
    {
        if !self.is_update {
            return 0;
        }
        let (lines, consumed) = paginate(chunk, self.rows);
        self.buff = lines;
        if self.buff.len() == 0 {
            self.cursor_row = 0;
        } else if (self.cursor_row as usize) >= self.buff.len() {
            self.cursor_row = (self.buff.len() - 1) as u16;
        }
        self.reclamp_col();
        self.is_update = false;
        proof {
            lemma_complete_lines_no_newline(chunk@);
            assert(self@ =~= rendered_state(old(self)@, chunk@));
        }
        consumed
    }

    /// Serializes the rendered window for writing back to the backing store:
    /// every line followed by its newline.
    pub fn write(&self) -> (out: Vec<u8>)
        ensures
            out@ == serialized(self@.buff),
    {
        let mut out: Vec<u8> = Vec::new();
        let mut i: usize = 0;
        while i < self.buff.len()
            invariant
                i <= self@.buff.len(),
                out@ == serialized(self@.buff.take(i as int)),
            decreases self@.buff.len() - i,
        {
            let mut k: usize = 0;
            let ghost done = out@;
            while k < self.buff[i].len()
                invariant
                    i < self@.buff.len(),
                    k <= self@.buff[i as int].len(),
                    out@ == done + self@.buff[i as int].subrange(0, k as int),
                decreases self@.buff[i as int].len() - k,
            {
                let b = self.buff[i][k];
                out.push(b);
                proof {
                    assert(out@ =~= done + self@.buff[i as int].subrange(0, (k + 1) as int));
                }
                k = k + 1;
            }
            out.push(NEWLINE);
            proof {
                lemma_serialized_push(self@.buff.take(i as int), self@.buff[i as int]);
                assert(self@.buff.take(i as int).push(self@.buff[i as int])
                    =~= self@.buff.take((i + 1) as int));
                assert(self@.buff[i as int].subrange(0, self@.buff[i as int].len() as int)
                    =~= self@.buff[i as int]);
                assert(out@ =~= serialized(self@.buff.take((i + 1) as int)));
            }
            i = i + 1;
        }
        proof {
            assert(self@.buff.take(self@.buff.len() as int) =~= self@.buff);
        }
        out
    }

    /// Takes a resize notification; a changed size marks a render pending.
    pub fn resize_cb(&mut self, rows: u16, cols: u16)
        ensures
            final(self)@ == (if rows == old(self)@.rows && cols == old(self)@.cols {
                old(self)@
            } else {
                WState { rows, cols, dirty: true, ..old(self)@ }
            }),
            wf(old(self)@) ==> wf(final(self)@),
    {
        if rows != self.rows || cols != self.cols {
            self.rows = rows;
            self.cols = cols;
            self.is_update = true;
        }
        proof {
            assert(self@ =~= (if rows == old(self)@.rows && cols == old(self)@.cols {
                old(self)@
            } else {
                WState { rows, cols, dirty: true, ..old(self)@ }
            }));
        }
    }
}

/// Bytes from the top of the window down to the start of row `r`: every line
/// above it with its newline.
pub open spec fn row_bytes(buff: Seq<Seq<u8>>, r: int) -> int
    decreases r,
{
    if r <= 0 {
        0
    } else {
        row_bytes(buff, r - 1) + buff[r - 1].len() + 1
    }
}

pub proof fn lemma_row_bytes_nonneg(buff: Seq<Seq<u8>>, r: int)
    ensures
        row_bytes(buff, r) >= 0,
    decreases (if r <= 0 { 0int } else { r }),
{
    if r > 0 {
        lemma_row_bytes_nonneg(buff, r - 1);
    }
}

pub proof fn lemma_row_bytes_mono(buff: Seq<Seq<u8>>, i: int, r: int)
    requires
        i <= r,
    ensures
        row_bytes(buff, i) <= row_bytes(buff, r),
    decreases r - i,
{
    if i < r {
        lemma_row_bytes_mono(buff, i, r - 1);
    }
}

/// Byte offset of the cursor within the rendered window: the lines above it,
/// each with its newline, plus the cursor column.
pub open spec fn cursor_offset_in_window(s: WState) -> int {
    row_bytes(s.buff, s.cursor_row as int) + s.cursor_col
}

impl TextWidget {
    /// Byte offset of the cursor within the rendered window.
    pub fn cursor_offset(&self) -> (r: i64)
        requires
            wf(self@),
            cursor_offset_in_window(self@) <= i64::MAX,
        ensures
            r == cursor_offset_in_window(self@),
    {
        let mut acc: i64 = 0;
        let mut i: usize = 0;
        while i < self.cursor_row as usize
            invariant
                wf(self@),
                i <= self@.cursor_row as int,
                acc == row_bytes(self@.buff, i as int),
                cursor_offset_in_window(self@) <= i64::MAX,
            decreases self@.cursor_row as int - i,
        {
            proof {
                lemma_row_bytes_nonneg(self@.buff, i as int);
                lemma_row_bytes_mono(self@.buff, i as int + 1, self@.cursor_row as int);
                assert(row_bytes(self@.buff, i as int + 1)
                    == acc + self@.buff[i as int].len() + 1);
                assert(acc + self@.buff[i as int].len() + 1 <= i64::MAX);
            }
            let ll = self.buff[i].len();
            acc = acc + ll as i64 + 1;
            i = i + 1;
        }
        proof {
            lemma_row_bytes_nonneg(self@.buff, self@.cursor_row as int);
        }
        acc + self.cursor_col as i64
    }

    /// Absolute seek target for entering insert mode: the write-back base
    /// offset plus the cursor's offset within the window.
    pub fn insert_mode(&self) -> (target: u64)
        requires
            wf(self@),
            cursor_offset_in_window(self@) <= i64::MAX,
            self@.line + cursor_offset_in_window(self@) <= u64::MAX,
        ensures
            target == self@.line + cursor_offset_in_window(self@),
    {
        let off = self.cursor_offset();
        proof {
            lemma_row_bytes_nonneg(self@.buff, self@.cursor_row as int);
        }
        self.line + off as u64
    }
}

/// Every key preserves well-formedness: whatever sequence of keys arrives,
/// the cursor stays on a valid cell of the window and the window offset stays
/// the total of the scroll history.
pub proof fn lemma_step_preserves_wf(s: WState, key: KeyEvent)
    requires
        wf(s),
        scroll_fits(s),
    ensures
        wf(spec_step(s, key).0),
{
    let s2 = spec_step(s, key).0;
    if s.mode == InputMode::Normal {
        match key {
            KeyEvent::Char(c) => {
                if c == 'k' {
                    if s.cursor_row == 0 {
                        lemma_scroll_backward_wf(s);
                    }
                } else if c == 'j' {
                    if !(s.buff.len() > 0 && (s.cursor_row as int) < s.buff.len() - 1)
                        && s.buff.len() > 0 {
                        lemma_scroll_forward_wf(s);
                    }
                } else if c == 'A' {
                    if s.buff.len() > 0 {
                        lemma_scroll_forward_wf(s);
                    }
                } else if c == 'B' {
                    lemma_scroll_backward_wf(s);
                }
            },
            _ => {},
        }
    }
}

proof fn lemma_scroll_forward_wf(s: WState)
    requires
        wf(s),
        scroll_fits(s),
        s.buff.len() > 0,
    ensures
        wf(scroll_forward(s)),
{
    let adv = (s.buff[0].len() + 1) as usize;
    lemma_hist_total_push(s.hist, adv);
}

proof fn lemma_scroll_backward_wf(s: WState)
    requires
        wf(s),
    ensures
        wf(scroll_backward(s)),
{
    if s.hist.len() > 0 {
        lemma_hist_total_nonneg(s.hist);
        assert(hist_total(s.hist.drop_last()) == hist_total(s.hist) - s.hist.last());
        lemma_hist_total_nonneg(s.hist.drop_last());
    }
}

/// Cursor clamp law: after any key, the cursor column still lies on a
/// character cell of the line it stands on (or at column 0 of an empty line).
pub proof fn lemma_cursor_clamped(s: WState, key: KeyEvent)
    requires
        wf(s),
        scroll_fits(s),
    ensures
        spec_step(s, key).0.cursor_col as int <= last_col(cur_line_len(spec_step(s, key).0)),
{
    lemma_step_preserves_wf(s, key);
}

/// Write-back round trip at the widget level: a render pass over the very
/// bytes that `write` serializes reproduces the window unchanged, as long as
/// the window fits the viewport.
pub proof fn lemma_widget_round_trip(s: WState)
    requires
        wf(s),
        s.buff.len() <= s.rows as int,
    ensures
        rendered_state(s, serialized(s.buff)).buff == s.buff,
{
    crate::pagination::lemma_write_back_round_trip(s.buff, s.rows as int);
}

/// Scroll inverse law: scrolling the window forward one line and then
/// backward restores the window offset and the scroll history exactly, and
/// leaves the window and the cursor untouched.
pub proof fn lemma_scroll_inverse(s: WState)
    requires
        wf(s),
        scroll_fits(s),
        s.buff.len() > 0,
        s.mode == InputMode::Normal,
    ensures
        ({
            let s1 = spec_step(s, KeyEvent::Char('A')).0;
            let s2 = spec_step(s1, KeyEvent::Char('B')).0;
            &&& s1.hist.len() > 0
            &&& s2.offset == s.offset
            &&& s2.hist == s.hist
            &&& s2.buff == s.buff
            &&& s2.cursor_row == s.cursor_row
            &&& s2.cursor_col == s.cursor_col
        }),
{
    let adv = (s.buff[0].len() + 1) as usize;
    let s1 = spec_step(s, KeyEvent::Char('A')).0;
    assert(s1 == scroll_forward(s));
    assert(s1.hist == s.hist.push(adv));
    assert(s1.hist.last() == adv);
    assert(s1.hist.drop_last() =~= s.hist);
    let s2 = spec_step(s1, KeyEvent::Char('B')).0;
    assert(s2 == scroll_backward(s1));
}

} // verus!
