//! The commands of a session at a sheet, one line each, and what each does
//! to the window that the session shows.
//!
//! A line, without the blanks at its end, is one of:
//! - `q` or `Q`: the session ends;
//! - `disable_output`, `enable_output`: the window is no longer shown after
//!   each line, or is shown again;
//! - `scroll_to` and the name of a cell: the window begins at that cell;
//! - `w`, `s`, `a`, `d`: the window moves ten cells up, down, left, right;
//! - the name of a cell, `=` and a formula: an edit of the sheet.
//! Any other line is not recognised.

use vstd::prelude::*;
use vstd::slice::slice_subrange;
use vstd::string::StrSliceExecFns;
use crate::coords::Dims;
use crate::parser::{cell_name_value, read_cell_name};
use crate::spreadsheet::{
    edited, Spreadsheet, STATUS_INVALID_CELL, STATUS_OK, STATUS_UNRECOGNIZED,
};
use crate::text::{
    blank, chars_of, find_char, first_nonblank, first_of, is_blank, last_nonblank_end, starts_with,
};

verus! {

/// How many rows and columns a window shows, and how far it moves at once.
pub const PAGE: usize = 10;

/// What a line asks for.
pub ghost enum Command {
    Quit,
    DisableOutput,
    EnableOutput,
    /// `scroll_to` with the text that names the cell, if there is one.
    ScrollTo(Option<Seq<char>>),
    Up,
    Down,
    Left,
    Right,
    /// An edit, with the text before the first `=` and the text after it.
    Edit(Seq<char>, Seq<char>),
    Unknown,
}

/// The place of the first blank in `s` at or after `from`, or the length
/// of `s` if there is none.
pub open spec fn first_blank(s: Seq<char>, from: int) -> int
    decreases s.len() - from,
{
    if from >= s.len() {
        s.len() as int
    } else if is_blank(s[from]) {
        from
    } else {
        first_blank(s, from + 1)
    }
}

/// The second word of `s`, where words are what blanks separate and `s`
/// begins with a word.
pub open spec fn second_word(s: Seq<char>) -> Option<Seq<char>> {
    let a = first_blank(s, 0);
    let b = first_nonblank(s, a);
    let c = first_blank(s, b);
    if b >= s.len() {
        None
    } else {
        Some(s.subrange(b, c))
    }
}

/// What the line `line` asks for.
pub open spec fn command_of(line: Seq<char>) -> Command {
    let t = line.take(last_nonblank_end(line, line.len() as int));
    if t == "q"@ || t == "Q"@ {
        Command::Quit
    } else if t == "disable_output"@ {
        Command::DisableOutput
    } else if t == "enable_output"@ {
        Command::EnableOutput
    } else if "scroll_to"@.len() <= t.len() && t.take("scroll_to"@.len() as int) == "scroll_to"@ {
        Command::ScrollTo(second_word(t))
    } else if t == "w"@ {
        Command::Up
    } else if t == "s"@ {
        Command::Down
    } else if t == "a"@ {
        Command::Left
    } else if t == "d"@ {
        Command::Right
    } else if first_of(t, '=', 0) < t.len() {
        Command::Edit(t.take(first_of(t, '=', 0)), t.skip(first_of(t, '=', 0) + 1))
    } else {
        Command::Unknown
    }
}

/// What the loop around a session is to do after a line.
#[derive(Clone, Copy, Debug, PartialEq, Eq, Structural)]
pub enum Action {
    /// End the session.
    Quit,
    /// Show the window.
    Show,
    /// Show nothing.
    Silent,
}

/// The state of a session: whether the window is shown after each line,
/// where the window begins, and the status of the last line.
#[derive(Clone, Copy, Debug, PartialEq, Eq, Structural)]
pub struct Console {
    pub output_enabled: bool,
    /// The number of rows above the window.
    pub viewport_row: usize,
    /// The number of columns left of the window.
    pub viewport_col: usize,
    /// The status of the last line: that of its edit, or what else
    /// was wrong with it.
    pub status: u8,
}

/// Where a window that begins after `at` of `limit` rows or columns
/// begins once it has moved a page back.
pub open spec fn page_back(at: int) -> int {
    if at >= PAGE {
        at - PAGE
    } else {
        0
    }
}

/// Where a window that begins after `at` of `limit` rows or columns
/// begins once it has moved a page on: a page further if another page is
/// left beyond it, else at the last page.
pub open spec fn page_on(at: int, limit: int) -> int {
    if limit <= PAGE {
        0
    } else if at + 2 * PAGE < limit {
        at + PAGE
    } else {
        limit - PAGE
    }
}

impl Console {
    /// The state of a session that begins: the window is shown, and begins
    /// at the first cell.
    pub fn new() -> (c: Console)
        ensures
            c == (Console { output_enabled: true, viewport_row: 0, viewport_col: 0, status: STATUS_OK }),
    {
        Console { output_enabled: true, viewport_row: 0, viewport_col: 0, status: STATUS_OK }
    }

    /// The state after a command other than an edit, on a grid of size
    /// `dims`.
    pub open spec fn after(self, dims: Dims, cmd: Command) -> Console {
        let reset = Console { status: STATUS_OK, ..self };
        match cmd {
            Command::Quit => reset,
            Command::DisableOutput => Console { output_enabled: false, ..reset },
            Command::EnableOutput => Console { output_enabled: true, ..reset },
            Command::ScrollTo(None) => reset,
            Command::ScrollTo(Some(name)) => match cell_name_value(name) {
                Some(c) => if dims.contains(c) {
                    Console {
                        viewport_row: (c.1 - 1) as usize,
                        viewport_col: (c.0 - 1) as usize,
                        ..reset
                    }
                } else {
                    Console { status: STATUS_INVALID_CELL, ..reset }
                },
                None => Console { status: STATUS_INVALID_CELL, ..reset },
            },
            Command::Up => Console { viewport_row: page_back(self.viewport_row as int) as usize, ..reset },
            Command::Down => Console {
                viewport_row: page_on(self.viewport_row as int, dims.rows as int) as usize,
                ..reset
            },
            Command::Left => Console { viewport_col: page_back(self.viewport_col as int) as usize, ..reset },
            Command::Right => Console {
                viewport_col: page_on(self.viewport_col as int, dims.cols as int) as usize,
                ..reset
            },
            Command::Edit(_, _) => reset,
            Command::Unknown => Console { status: STATUS_UNRECOGNIZED, ..reset },
        }
    }

    /// What the loop is to do after the command `cmd` has brought the
    /// session to this state.
    pub open spec fn action(self, cmd: Command) -> Action {
        match cmd {
            Command::Quit => Action::Quit,
            Command::DisableOutput => Action::Silent,
            _ => if self.output_enabled {
                Action::Show
            } else {
                Action::Silent
            },
        }
    }

    /// The window stays within reach of a page.
    pub open spec fn bounded(self) -> bool {
        self.viewport_row <= usize::MAX - 2 * PAGE && self.viewport_col <= usize::MAX - 2 * PAGE
    }

    /// Carries out the command of one line.
    ///
    /// An edit goes to `set_cell`, and its status becomes that of the
    /// session; if the text before `=` names no cell, the status is
    /// `STATUS_INVALID_CELL` and the sheet is left alone. Every other
    /// command leaves the sheet alone. After a line that is no edit the
    /// sheet reports nothing, so that nothing is owed for it.
    pub fn step(&mut self, sheet: &mut Spreadsheet, line: &str) -> (action: Action)
        requires
            old(sheet).wf(),
            old(self).bounded(),
        ensures
            final(sheet).wf(),
            final(self).bounded(),
            action == final(self).action(command_of(line@)),
            match command_of(line@) {
                Command::Edit(name, expr) => {
                    &&& final(self).output_enabled == old(self).output_enabled
                    &&& final(self).viewport_row == old(self).viewport_row
                    &&& final(self).viewport_col == old(self).viewport_col
                    &&& match cell_name_value(name) {
                        Some(coord) => edited(
                            old(sheet)@,
                            final(sheet)@,
                            final(sheet).swept(),
                            coord,
                            expr,
                            final(self).status,
                        ),
                        None => final(self).status == STATUS_INVALID_CELL && final(sheet)@ == old(
                            sheet,
                        )@ && final(sheet).swept().len() == 0,
                    }
                },
                cmd => *final(self) == old(self).after(old(sheet)@.dims, cmd) && final(sheet)@
                    == old(sheet)@ && final(sheet).swept().len() == 0,
            },
    {
        sheet.clear_report();
        let text: Vec<char> = chars_of(line);
        let all: &[char] = text.as_slice();
        let mut end: usize = all.len();
        while end > 0 && blank(all[end - 1])
            invariant
                end <= all@.len(),
                last_nonblank_end(all@, all@.len() as int) == last_nonblank_end(all@, end as int),
            decreases end,
        {
            end = end - 1;
        }
        let t: &[char] = slice_subrange(all, 0, end);
        proof {
            assert(t@ =~= line@.take(last_nonblank_end(line@, line@.len() as int)));
            sheet.lemma_wf_view();
        }
        let dims: Dims = sheet.dims();
        self.status = STATUS_OK;
        if is_text(t, "q") || is_text(t, "Q") {
            Action::Quit
        } else if is_text(t, "disable_output") {
            self.output_enabled = false;
            Action::Silent
        } else if is_text(t, "enable_output") {
            self.output_enabled = true;
            Action::Show
        } else if begins_with(t, "scroll_to") {
            match find_second_word(t) {
                None => {},
                Some(name) => match read_cell_name(name) {
                    Some(c) => {
                        if dims.holds(c) {
                            self.viewport_row = (c.1 - 1) as usize;
                            self.viewport_col = (c.0 - 1) as usize;
                        } else {
                            self.status = STATUS_INVALID_CELL;
                        }
                    },
                    None => {
                        self.status = STATUS_INVALID_CELL;
                    },
                },
            }
            self.shown()
        } else if is_text(t, "w") {
            self.viewport_row = move_back(self.viewport_row);
            self.shown()
        } else if is_text(t, "s") {
            self.viewport_row = move_on(self.viewport_row, dims.rows as usize);
            self.shown()
        } else if is_text(t, "a") {
            self.viewport_col = move_back(self.viewport_col);
            self.shown()
        } else if is_text(t, "d") {
            self.viewport_col = move_on(self.viewport_col, dims.cols as usize);
            self.shown()
        } else {
            let at: usize = find_char(t, '=');
            if at < end {
                let name = slice_subrange(t, 0, at);
                proof {
                    assert(name@ =~= t@.take(at as int));
                }
                match read_cell_name(name) {
                    Some(coord) => {
                        let expr: &str = line.substring_char(at + 1, end);
                        proof {
                            assert(expr@ =~= t@.skip(at + 1));
                        }
                        self.status = sheet.set_cell(coord, expr);
                    },
                    None => {
                        self.status = STATUS_INVALID_CELL;
                    },
                }
            } else {
                self.status = STATUS_UNRECOGNIZED;
            }
            self.shown()
        }
    }

    /// What the loop is to do after a line that neither ends the session
    /// nor turns the window off.
    fn shown(&self) -> (action: Action)
        ensures
            action == (if self.output_enabled {
                Action::Show
            } else {
                Action::Silent
            }),
    {
        if self.output_enabled {
            Action::Show
        } else {
            Action::Silent
        }
    }
}

/// Whether `s` is the text `word`.
pub fn is_text(s: &[char], word: &str) -> (r: bool)
    ensures
        r == (s@ == word@),
{
    let w: Vec<char> = chars_of(word);
    if s.len() != w.len() {
        return false;
    }
    let r = starts_with(s, w.as_slice());
    proof {
        assert(s@.take(s@.len() as int) =~= s@);
    }
    r
}

/// Whether `s` begins with the text `word`.
pub fn begins_with(s: &[char], word: &str) -> (r: bool)
    ensures
        r == (word@.len() <= s@.len() && s@.take(word@.len() as int) == word@),
{
    let w: Vec<char> = chars_of(word);
    starts_with(s, w.as_slice())
}

/// Finds the second word of `s`.
pub fn find_second_word<'a>(s: &'a [char]) -> (r: Option<&'a [char]>)
    ensures
        match r {
            Some(w) => second_word(s@) == Some(w@),
            None => second_word(s@) is None,
        },
{
    let n: usize = s.len();
    let mut a: usize = 0;
    while a < n && !blank(s[a])
        invariant
            a <= n,
            n == s@.len(),
            first_blank(s@, 0) == first_blank(s@, a as int),
        decreases n - a,
    {
        a = a + 1;
    }
    let mut b: usize = a;
    while b < n && blank(s[b])
        invariant
            a <= b <= n,
            n == s@.len(),
            first_nonblank(s@, a as int) == first_nonblank(s@, b as int),
        decreases n - b,
    {
        b = b + 1;
    }
    if b >= n {
        return None;
    }
    let mut c: usize = b;
    while c < n && !blank(s[c])
        invariant
            b <= c <= n,
            n == s@.len(),
            first_blank(s@, b as int) == first_blank(s@, c as int),
        decreases n - c,
    {
        c = c + 1;
    }
    Some(slice_subrange(s, b, c))
}

/// Moves a window a page back.
pub fn move_back(at: usize) -> (r: usize)
    ensures
        r == page_back(at as int),
{
    if at >= PAGE {
        at - PAGE
    } else {
        0
    }
}

/// Moves a window a page on.
pub fn move_on(at: usize, limit: usize) -> (r: usize)
    requires
        at <= usize::MAX - 2 * PAGE,
    ensures
        r == page_on(at as int, limit as int),
{
    if limit <= PAGE {
        0
    } else if at + 2 * PAGE < limit {
        at + PAGE
    } else {
        limit - PAGE
    }
}

} // verus!
