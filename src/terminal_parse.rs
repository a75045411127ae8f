//! Turning a raw terminal character stream (with a minimal subset of ANSI
//! control sequences) into a line-oriented screen snapshot.
use vstd::prelude::*;
use vstd::slice::slice_subrange;
use vstd::utf8::*;

use crate::hashing::{content_hash, xxh3_64_of};
use crate::text::{chars_of, parse_usize, parse_usize_spec, string_of};

verus! {

broadcast use vstd::seq_lib::group_seq_properties;

/// Maximum number of lines kept in a snapshot; older lines are dropped first.
pub const MAX_LINES: usize = 10000;

/// Rows shown in the viewport.
pub const VIEWPORT_HEIGHT: usize = 24;

/// Parser mode: plain text.
pub const MODE_TEXT: u8 = 0;

/// Parser mode: an escape character was just read.
pub const MODE_ESCAPE: u8 = 1;

/// Parser mode: inside a control sequence introduced by escape and `[`.
pub const MODE_CONTROL: u8 = 2;

/// The parser's state after some prefix of the input.
pub struct ScreenModel {
    /// Lines already ended by a newline.
    pub lines: Seq<Seq<char>>,
    /// The line being written.
    pub cur: Seq<char>,
    pub row: usize,
    pub col: usize,
    pub mode: u8,
    /// Parameter characters of the control sequence being read.
    pub params: Seq<char>,
}

pub open spec fn initial_screen() -> ScreenModel {
    ScreenModel {
        lines: seq![],
        cur: seq![],
        row: 0,
        col: 0,
        mode: MODE_TEXT,
        params: seq![],
    }
}

pub open spec fn is_ascii_alpha(c: char) -> bool {
    ('A' <= c <= 'Z') || ('a' <= c <= 'z')
}

/// `x + 1`, saturating at `usize::MAX`.
pub open spec fn sat_inc(x: usize) -> usize {
    if x < usize::MAX {
        (x + 1) as usize
    } else {
        x
    }
}

/// Index of the first `;` in `s` at or after `from`, or the length of `s`.
pub open spec fn field_end(s: Seq<char>, from: int) -> int
    decreases s.len() - from,
{
    if from >= s.len() {
        s.len() as int
    } else if s[from] == ';' {
        from
    } else {
        field_end(s, from + 1)
    }
}

/// A 1-based coordinate field made 0-based; a missing or malformed field
/// counts as 1.
pub open spec fn coordinate(field: Seq<char>) -> usize {
    match parse_usize_spec(field) {
        Some(v) => if v > 0 {
            (v - 1) as usize
        } else {
            0
        },
        None => 0,
    }
}

/// Effect of a complete control sequence with parameters `params` and final
/// letter `cmd`.
pub open spec fn apply_control(st: ScreenModel, params: Seq<char>, cmd: char) -> ScreenModel {
    if cmd == 'H' || cmd == 'f' {
        let e0 = field_end(params, 0);
        if e0 < params.len() {
            let e1 = field_end(params, e0 + 1);
            ScreenModel {
                row: coordinate(params.subrange(0, e0)),
                col: coordinate(params.subrange(e0 + 1, e1)),
                ..st
            }
        } else {
            st
        }
    } else if cmd == 'J' {
        if params == seq!['2'] {
            ScreenModel { lines: seq![], cur: seq![], row: 0, col: 0, ..st }
        } else {
            st
        }
    } else if cmd == 'K' {
        if params.len() == 0 || params == seq!['0'] {
            ScreenModel {
                cur: if (st.col as int) < st.cur.len() {
                    st.cur.subrange(0, st.col as int)
                } else {
                    st.cur
                },
                ..st
            }
        } else {
            st
        }
    } else {
        st
    }
}

/// Effect of a character read in plain-text mode.
pub open spec fn text_step(st: ScreenModel, c: char) -> ScreenModel {
    if c == '\x1b' {
        ScreenModel { mode: MODE_ESCAPE, ..st }
    } else if c == '\n' {
        ScreenModel { lines: st.lines.push(st.cur), cur: seq![], row: sat_inc(st.row), col: 0, ..st }
    } else if c == '\r' {
        ScreenModel { col: 0, ..st }
    } else {
        ScreenModel {
            cur: if (st.col as int) >= st.cur.len() {
                st.cur.push(c)
            } else {
                st.cur.update(st.col as int, c)
            },
            col: sat_inc(st.col),
            ..st
        }
    }
}

/// Effect of reading one character.
pub open spec fn screen_step(st: ScreenModel, c: char) -> ScreenModel {
    if st.mode == MODE_ESCAPE {
        if c == '[' {
            ScreenModel { mode: MODE_CONTROL, params: seq![], ..st }
        } else {
            text_step(ScreenModel { mode: MODE_TEXT, ..st }, c)
        }
    } else if st.mode == MODE_CONTROL {
        if is_ascii_alpha(c) {
            apply_control(ScreenModel { mode: MODE_TEXT, ..st }, st.params, c)
        } else {
            ScreenModel { params: st.params.push(c), ..st }
        }
    } else {
        text_step(st, c)
    }
}

/// The parser's state after reading all of `chars`.
pub open spec fn screen_after(chars: Seq<char>) -> ScreenModel
    decreases chars.len(),
{
    if chars.len() == 0 {
        initial_screen()
    } else {
        screen_step(screen_after(chars.drop_last()), chars.last())
    }
}

/// All lines at the end of input: the unfinished line counts when it holds
/// text or when the cursor row lies past the finished lines.
pub open spec fn final_lines(st: ScreenModel) -> Seq<Seq<char>> {
    if st.cur.len() > 0 || st.row >= st.lines.len() {
        st.lines.push(st.cur)
    } else {
        st.lines
    }
}

/// The last `MAX_LINES` of `lines`.
pub open spec fn keep_recent(lines: Seq<Seq<char>>) -> Seq<Seq<char>> {
    if lines.len() > MAX_LINES {
        lines.subrange(lines.len() - MAX_LINES, lines.len() as int)
    } else {
        lines
    }
}

/// A line as stored in a snapshot: its text and the hash of its UTF-8 bytes.
pub open spec fn hashed_line(text: Seq<char>) -> (Seq<char>, u64) {
    (text, xxh3_64_of(encode_utf8(text)))
}

/// What a snapshot holds: lines with their hashes, cursor and viewport.
pub struct SnapshotView {
    pub lines: Seq<(Seq<char>, u64)>,
    pub cursor_row: usize,
    pub cursor_col: usize,
    pub viewport_top: usize,
    pub viewport_height: usize,
}

/// Every line's hash is the hash of its text's UTF-8 bytes, as in the
/// snapshots the parser produces.
pub open spec fn lines_hashed(s: SnapshotView) -> bool {
    forall|i: int|
        0 <= i < s.lines.len() ==> #[trigger] s.lines[i].1 == xxh3_64_of(encode_utf8(s.lines[i].0))
}

/// The snapshot described by the text `data`.
pub open spec fn parse_spec(data: Seq<char>) -> SnapshotView {
    let st = screen_after(data);
    let kept = keep_recent(final_lines(st));
    SnapshotView {
        lines: kept.map_values(|l: Seq<char>| hashed_line(l)),
        cursor_row: st.row,
        cursor_col: st.col,
        viewport_top: if st.row >= VIEWPORT_HEIGHT {
            (st.row - VIEWPORT_HEIGHT) as usize
        } else {
            0
        },
        viewport_height: VIEWPORT_HEIGHT,
    }
}

/// One line of a snapshot.
pub struct TerminalLine {
    pub content: String,
    pub hash: u64,
}

impl View for TerminalLine {
    type V = (Seq<char>, u64);

    open spec fn view(&self) -> (Seq<char>, u64) {
        (self.content@, self.hash)
    }
}

/// The screen content at one capture.
pub struct TerminalSnapshot {
    pub lines: Vec<TerminalLine>,
    pub cursor_row: usize,
    pub cursor_col: usize,
    pub viewport_top: usize,
    pub viewport_height: usize,
}

impl View for TerminalSnapshot {
    type V = SnapshotView;

    open spec fn view(&self) -> SnapshotView {
        SnapshotView {
            lines: self.lines@.map_values(|l: TerminalLine| l@),
            cursor_row: self.cursor_row,
            cursor_col: self.cursor_col,
            viewport_top: self.viewport_top,
            viewport_height: self.viewport_height,
        }
    }
}

impl TerminalLine {
    pub fn duplicate(&self) -> (r: Self)
        ensures
            r@ == self@,
    {
        TerminalLine { content: self.content.clone(), hash: self.hash }
    }
}

impl TerminalSnapshot {
    /// A copy of this snapshot with the same content.
    pub fn duplicate(&self) -> (r: Self)
        ensures
            r@ == self@,
    {
        let mut lines: Vec<TerminalLine> = Vec::new();
        let mut i: usize = 0;
        while i < self.lines.len()
            invariant
                i <= self.lines@.len(),
                lines@.len() == i,
                forall|j: int| 0 <= j < i ==> #[trigger] lines@[j]@ == self.lines@[j]@,
            decreases self.lines@.len() - i,
        {
            let line = self.lines[i].duplicate();
            lines.push(line);
            i = i + 1;
        }
        proof {
            assert(lines@.map_values(|l: TerminalLine| l@) =~= self.lines@.map_values(
                |l: TerminalLine| l@,
            ));
        }
        TerminalSnapshot {
            lines,
            cursor_row: self.cursor_row,
            cursor_col: self.cursor_col,
            viewport_top: self.viewport_top,
            viewport_height: self.viewport_height,
        }
    }
}

/// The parser's running state.
struct ParserState {
    lines: Vec<Vec<char>>,
    cur: Vec<char>,
    row: usize,
    col: usize,
    mode: u8,
    params: Vec<char>,
}

impl View for ParserState {
    type V = ScreenModel;

    closed spec fn view(&self) -> ScreenModel {
        ScreenModel {
            lines: self.lines@.map_values(|l: Vec<char>| l@),
            cur: self.cur@,
            row: self.row,
            col: self.col,
            mode: self.mode,
            params: self.params@,
        }
    }
}

/// Index of the first `;` in `s` at or after `from`, or the length of `s`.
fn find_field_end(s: &[char], from: usize) -> (r: usize)
    requires
        from <= s@.len(),
    ensures
        r as int == field_end(s@, from as int),
        from <= r <= s@.len(),
{
    let mut j: usize = from;
    while j < s.len() && s[j] != ';'
        invariant
            from <= j <= s@.len(),
            field_end(s@, from as int) == field_end(s@, j as int),
        decreases s@.len() - j,
    {
        j = j + 1;
    }
    j
}

fn coordinate_of(field: &[char]) -> (r: usize)
    ensures
        r == coordinate(field@),
{
    match parse_usize(field) {
        Some(v) => if v > 0 {
            v - 1
        } else {
            0
        },
        None => 0,
    }
}

fn is_two(params: &Vec<char>) -> (r: bool)
    ensures
        r == (params@ == seq!['2']),
{
    let r = params.len() == 1 && params[0] == '2';
    proof {
        if params@.len() == 1 && params@[0] == '2' {
            assert(params@ =~= seq!['2']);
        }
    }
    r
}

fn is_empty_or_zero(params: &Vec<char>) -> (r: bool)
    ensures
        r == (params@.len() == 0 || params@ == seq!['0']),
{
    let r = params.len() == 0 || (params.len() == 1 && params[0] == '0');
    proof {
        if params@.len() == 1 && params@[0] == '0' {
            assert(params@ =~= seq!['0']);
        }
    }
    r
}

impl ParserState {
    fn new() -> (r: Self)
        ensures
            r@ == initial_screen(),
    {
        let r = ParserState {
            lines: Vec::new(),
            cur: Vec::new(),
            row: 0,
            col: 0,
            mode: MODE_TEXT,
            params: Vec::new(),
        };
        proof {
            assert(r@.lines =~= Seq::<Seq<char>>::empty());
        }
        r
    }

    fn text_char(&mut self, c: char)
        ensures
            final(self)@ == text_step(old(self)@, c),
    {
        if c == '\x1b' {
            self.mode = MODE_ESCAPE;
        } else if c == '\n' {
            let mut line: Vec<char> = Vec::new();
            std::mem::swap(&mut line, &mut self.cur);
            self.lines.push(line);
            self.row = self.row.saturating_add(1);
            self.col = 0;
            proof {
                assert(self@.lines =~= old(self)@.lines.push(old(self)@.cur));
            }
        } else if c == '\r' {
            self.col = 0;
        } else {
            if self.col >= self.cur.len() {
                self.cur.push(c);
            } else {
                self.cur.set(self.col, c);
            }
            self.col = self.col.saturating_add(1);
        }
    }

    fn control(&mut self, cmd: char)
        requires
            old(self)@.mode == MODE_TEXT,
        ensures
            final(self)@ == apply_control(old(self)@, old(self)@.params, cmd),
    {
        if cmd == 'H' || cmd == 'f' {
            let e0 = find_field_end(self.params.as_slice(), 0);
            if e0 < self.params.len() {
                let e1 = find_field_end(self.params.as_slice(), e0 + 1);
                let row = coordinate_of(slice_subrange(self.params.as_slice(), 0, e0));
                let col = coordinate_of(slice_subrange(self.params.as_slice(), e0 + 1, e1));
                self.row = row;
                self.col = col;
            }
        } else if cmd == 'J' {
            if is_two(&self.params) {
                self.lines.clear();
                self.cur.clear();
                self.row = 0;
                self.col = 0;
                proof {
                    assert(self@.lines =~= Seq::<Seq<char>>::empty());
                }
            }
        } else if cmd == 'K' {
            if is_empty_or_zero(&self.params) {
                if self.col < self.cur.len() {
                    self.cur.truncate(self.col);
                }
            }
        }
    }

    fn feed(&mut self, c: char)
        ensures
            final(self)@ == screen_step(old(self)@, c),
    {
        if self.mode == MODE_ESCAPE {
            if c == '[' {
                self.mode = MODE_CONTROL;
                self.params = Vec::new();
            } else {
                self.mode = MODE_TEXT;
                self.text_char(c);
            }
        } else if self.mode == MODE_CONTROL {
            if ('A' <= c && c <= 'Z') || ('a' <= c && c <= 'z') {
                self.mode = MODE_TEXT;
                self.control(c);
            } else {
                self.params.push(c);
            }
        } else {
            self.text_char(c);
        }
    }
}

/// Parses terminal output into a snapshot: plain characters overwrite or
/// append at the cursor column, `\n` ends a line, `\r` returns to column 0,
/// and the cursor-position, clear-screen and clear-to-end-of-line control
/// sequences are applied; other control sequences are skipped.
pub fn parse_terminal_output(data: &str) -> (r: TerminalSnapshot)
    ensures
        r@ == parse_spec(data@),
        lines_hashed(r@),
{
    let chars = chars_of(data);
    let mut st = ParserState::new();
    let mut i: usize = 0;
    while i < chars.len()
        invariant
            i <= chars@.len(),
            st@ == screen_after(chars@.subrange(0, i as int)),
        decreases chars@.len() - i,
    {
        proof {
            let p = chars@.subrange(0, i + 1);
            assert(p.drop_last() =~= chars@.subrange(0, i as int));
        }
        st.feed(chars[i]);
        i = i + 1;
    }
    proof {
        assert(chars@.subrange(0, chars@.len() as int) =~= data@);
    }
    let ghost model = st@;
    let ParserState { mut lines, cur, row, col, .. } = st;
    if cur.len() > 0 || row >= lines.len() {
        lines.push(cur);
    }
    let ghost all = final_lines(model);
    proof {
        assert(lines@.map_values(|l: Vec<char>| l@) =~= all);
    }
    let start: usize = if lines.len() > MAX_LINES { lines.len() - MAX_LINES } else { 0 };
    let ghost kept = keep_recent(all);
    proof {
        assert(kept =~= all.subrange(start as int, all.len() as int));
    }
    let mut out: Vec<TerminalLine> = Vec::new();
    let mut k: usize = start;
    while k < lines.len()
        invariant
            start <= k <= lines@.len(),
            lines@.map_values(|l: Vec<char>| l@) == all,
            kept =~= all.subrange(start as int, all.len() as int),
            out@.len() == k - start,
            forall|j: int| 0 <= j < k - start ==> #[trigger] out@[j]@ == hashed_line(kept[j]),
        decreases lines@.len() - k,
    {
        let content = string_of(lines[k].as_slice());
        let hash = content_hash(content.as_str().as_bytes());
        proof {
            assert(all[k as int] == lines@[k as int]@);
            assert(kept[k - start] == all[k as int]);
        }
        out.push(TerminalLine { content, hash });
        k = k + 1;
    }
    proof {
        assert(out@.map_values(|l: TerminalLine| l@) =~= kept.map_values(
            |l: Seq<char>| hashed_line(l),
        ));
    }
    let viewport_top: usize = if row >= VIEWPORT_HEIGHT { row - VIEWPORT_HEIGHT } else { 0 };
    TerminalSnapshot {
        lines: out,
        cursor_row: row,
        cursor_col: col,
        viewport_top,
        viewport_height: VIEWPORT_HEIGHT,
    }
}

} // verus!
