//! Building terminal-multiplexer commands and reading their listings.
use vstd::prelude::*;
use vstd::string::*;

use crate::text::{chars_of, parse_u64, parse_u64_spec, string_of};
use crate::types::{TmuxSession, TmuxWindow};

verus! {

broadcast use vstd::seq_lib::group_seq_properties;

/// `s` with every `'` written as `'\''`, for use inside single quotes in a
/// shell command.
pub open spec fn escape_quotes_spec(s: Seq<char>) -> Seq<char>
    decreases s.len(),
{
    if s.len() == 0 {
        seq![]
    } else {
        escape_quotes_spec(s.drop_last()) + if s.last() == '\'' {
            seq!['\'', '\\', '\'', '\'']
        } else {
            seq![s.last()]
        }
    }
}

/// Escapes single quotes for a single-quoted shell argument.
pub fn escape_single_quotes(s: &str) -> (r: String)
    ensures
        r@ == escape_quotes_spec(s@),
{
    let cs = chars_of(s);
    let mut out: Vec<char> = Vec::new();
    let mut i: usize = 0;
    while i < cs.len()
        invariant
            i <= cs@.len(),
            cs@ == s@,
            out@ == escape_quotes_spec(cs@.subrange(0, i as int)),
        decreases cs@.len() - i,
    {
        proof {
            assert(cs@.subrange(0, i + 1).drop_last() =~= cs@.subrange(0, i as int));
        }
        if cs[i] == '\'' {
            out.push('\'');
            out.push('\\');
            out.push('\'');
            out.push('\'');
        } else {
            out.push(cs[i]);
        }
        proof {
            assert(out@ =~= escape_quotes_spec(cs@.subrange(0, i + 1)));
        }
        i = i + 1;
    }
    proof {
        assert(cs@.subrange(0, cs@.len() as int) =~= s@);
    }
    string_of(out.as_slice())
}

/// `parts` joined with `sep` between consecutive parts.
pub open spec fn join_spec(parts: Seq<Seq<char>>, sep: Seq<char>) -> Seq<char>
    decreases parts.len(),
{
    if parts.len() == 0 {
        seq![]
    } else if parts.len() == 1 {
        parts[0]
    } else {
        join_spec(parts.drop_last(), sep) + sep + parts.last()
    }
}

pub open spec fn str_views(parts: Seq<&str>) -> Seq<Seq<char>> {
    parts.map_values(|p: &str| p@)
}

pub open spec fn string_views(parts: Seq<String>) -> Seq<Seq<char>> {
    parts.map_values(|p: String| p@)
}

fn join_strs(parts: &[&str], sep: &str) -> (r: String)
    ensures
        r@ == join_spec(str_views(parts@), sep@),
{
    let mut out = String::new();
    let mut i: usize = 0;
    while i < parts.len()
        invariant
            i <= parts@.len(),
            out@ == join_spec(str_views(parts@.subrange(0, i as int)), sep@),
        decreases parts@.len() - i,
    {
        proof {
            assert(str_views(parts@.subrange(0, i + 1)).drop_last() =~= str_views(
                parts@.subrange(0, i as int),
            ));
        }
        if i > 0 {
            out.append(sep);
        }
        out.append(parts[i]);
        proof {
            if i == 0 {
                assert(out@ =~= join_spec(str_views(parts@.subrange(0, 1)), sep@));
            }
        }
        i = i + 1;
    }
    proof {
        assert(parts@.subrange(0, parts@.len() as int) =~= parts@);
    }
    out
}

/// Commands collected to run in a single multiplexer invocation.
pub struct TmuxCommandBatch {
    commands: Vec<String>,
}

impl TmuxCommandBatch {
    /// The commands, in the order they were added.
    pub closed spec fn view(&self) -> Seq<Seq<char>> {
        string_views(self.commands@)
    }

    pub fn new() -> (r: Self)
        ensures
            r.view() == Seq::<Seq<char>>::empty(),
    {
        let r = TmuxCommandBatch { commands: Vec::new() };
        proof {
            assert(r.view() =~= Seq::<Seq<char>>::empty());
        }
        r
    }

    /// Adds the command made of `args` separated by spaces.
    pub fn add_command(&mut self, args: &[&str])
        ensures
            final(self).view() == old(self).view().push(join_spec(str_views(args@), " "@)),
    {
        let cmd = join_strs(args, " ");
        self.commands.push(cmd);
        proof {
            assert(final(self).view() =~= old(self).view().push(join_spec(str_views(args@), " "@)));
        }
    }

    /// Whether no command was added.
    pub fn is_empty(&self) -> (r: bool)
        ensures
            r == (self.view().len() == 0),
    {
        self.commands.len() == 0
    }

    /// The script for one invocation: the commands separated by ` \; `.
    pub fn script(&self) -> (r: String)
        ensures
            r@ == join_spec(self.view(), " \\; "@),
    {
        let mut out = String::new();
        let mut i: usize = 0;
        while i < self.commands.len()
            invariant
                i <= self.commands@.len(),
                out@ == join_spec(string_views(self.commands@.subrange(0, i as int)), " \\; "@),
            decreases self.commands@.len() - i,
        {
            proof {
                assert(string_views(self.commands@.subrange(0, i + 1)).drop_last() =~= string_views(
                    self.commands@.subrange(0, i as int),
                ));
            }
            if i > 0 {
                out.append(" \\; ");
            }
            out.append(self.commands[i].as_str());
            proof {
                if i == 0 {
                    assert(out@ =~= join_spec(string_views(self.commands@.subrange(0, 1)), " \\; "@));
                }
            }
            i = i + 1;
        }
        proof {
            assert(self.commands@.subrange(0, self.commands@.len() as int) =~= self.commands@);
        }
        out
    }
}

/// `s` cut at every `sep`, as `str::split` does (so `""` gives one empty
/// part and a trailing separator gives a trailing empty part).
pub open spec fn split_spec(s: Seq<char>, sep: char) -> Seq<Seq<char>>
    decreases s.len(),
{
    if s.len() == 0 {
        seq![seq![]]
    } else {
        let f = split_spec(s.drop_last(), sep);
        if s.last() == sep {
            f.push(seq![])
        } else {
            f.update(f.len() - 1, f.last().push(s.last()))
        }
    }
}

proof fn lemma_split_nonempty(s: Seq<char>, sep: char)
    ensures
        split_spec(s, sep).len() >= 1,
    decreases s.len(),
{
    if s.len() > 0 {
        lemma_split_nonempty(s.drop_last(), sep);
    }
}

/// Splits `s` at every `sep`.
pub fn split_chars(s: &[char], sep: char) -> (r: Vec<Vec<char>>)
    ensures
        r@.map_values(|p: Vec<char>| p@) == split_spec(s@, sep),
{
    let mut parts: Vec<Vec<char>> = Vec::new();
    parts.push(Vec::new());
    let mut i: usize = 0;
    proof {
        assert(parts@.map_values(|p: Vec<char>| p@) =~= split_spec(s@.subrange(0, 0), sep));
    }
    while i < s.len()
        invariant
            i <= s@.len(),
            parts@.len() >= 1,
            parts@.map_values(|p: Vec<char>| p@) == split_spec(s@.subrange(0, i as int), sep),
        decreases s@.len() - i,
    {
        proof {
            assert(s@.subrange(0, i + 1).drop_last() =~= s@.subrange(0, i as int));
            lemma_split_nonempty(s@.subrange(0, i as int), sep);
        }
        let ghost before = parts@.map_values(|p: Vec<char>| p@);
        if s[i] == sep {
            parts.push(Vec::new());
            proof {
                assert(parts@.map_values(|p: Vec<char>| p@) =~= before.push(seq![]));
            }
        } else {
            let last = parts.len() - 1;
            let mut cur = parts.pop().unwrap();
            cur.push(s[i]);
            parts.push(cur);
            proof {
                assert(parts@.map_values(|p: Vec<char>| p@) =~= before.update(
                    before.len() - 1,
                    before.last().push(s@[i as int]),
                ));
            }
        }
        i = i + 1;
    }
    proof {
        assert(s@.subrange(0, s@.len() as int) =~= s@);
    }
    parts
}

/// `line` without one trailing carriage return.
pub open spec fn strip_cr(line: Seq<char>) -> Seq<char> {
    if line.len() > 0 && line.last() == '\r' {
        line.drop_last()
    } else {
        line
    }
}

/// The lines of `s`, as `str::lines` gives them: split at `\n`, without the
/// empty piece after a final newline, each without a trailing `\r`.
pub open spec fn lines_spec(s: Seq<char>) -> Seq<Seq<char>> {
    let parts = split_spec(s, '\n');
    let kept = if parts.last().len() == 0 {
        parts.drop_last()
    } else {
        parts
    };
    kept.map_values(|l: Seq<char>| strip_cr(l))
}

/// What `str::parse::<u32>` yields.
pub open spec fn parse_u32_spec(s: Seq<char>) -> Option<u32> {
    match parse_u64_spec(s) {
        Some(v) => if v <= u32::MAX {
            Some(v as u32)
        } else {
            None
        },
        None => None,
    }
}

fn parse_u32(s: &[char]) -> (r: Option<u32>)
    ensures
        r == parse_u32_spec(s@),
{
    match parse_u64(s) {
        Some(v) => if v <= 0xFFFF_FFFF {
            Some(v as u32)
        } else {
            None
        },
        None => None,
    }
}

/// What `str::parse::<i64>` yields: an optional sign and decimal digits
/// whose value fits in an `i64`.
pub open spec fn parse_i64_spec(s: Seq<char>) -> Option<i64> {
    if s.len() > 0 && s[0] == '-' {
        let rest = s.drop_first();
        if rest.len() > 0 && rest[0] == '+' {
            None
        } else {
            match parse_u64_spec(rest) {
                Some(v) => if v <= 0x8000_0000_0000_0000 {
                    Some((-(v as int)) as i64)
                } else {
                    None
                },
                None => None,
            }
        }
    } else {
        match parse_u64_spec(s) {
            Some(v) => if v <= i64::MAX {
                Some(v as i64)
            } else {
                None
            },
            None => None,
        }
    }
}

fn parse_i64(s: &[char]) -> (r: Option<i64>)
    ensures
        r == parse_i64_spec(s@),
{
    if s.len() > 0 && s[0] == '-' {
        let rest = vstd::slice::slice_subrange(s, 1, s.len());
        proof {
            assert(rest@ =~= s@.drop_first());
        }
        if rest.len() > 0 && rest[0] == '+' {
            return None;
        }
        match parse_u64(rest) {
            Some(v) => if v <= 0x8000_0000_0000_0000 {
                if v == 0x8000_0000_0000_0000 {
                    Some(i64::MIN)
                } else {
                    Some(-(v as i64))
                }
            } else {
                None
            },
            None => None,
        }
    } else {
        match parse_u64(s) {
            Some(v) => if v <= 0x7FFF_FFFF_FFFF_FFFF {
                Some(v as i64)
            } else {
                None
            },
            None => None,
        }
    }
}

/// A window from one listing line `index:name:active:panes`; lines with fewer
/// fields or a malformed index are skipped, a malformed pane count reads as 1.
pub open spec fn window_from_fields(parts: Seq<Seq<char>>) -> Option<(u32, Seq<char>, bool, u32)> {
    if parts.len() >= 4 {
        match parse_u32_spec(parts[0]) {
            Some(index) => Some(
                (
                    index,
                    parts[1],
                    parts[2] == seq!['1'],
                    match parse_u32_spec(parts[3]) {
                        Some(p) => p,
                        None => 1,
                    },
                ),
            ),
            None => None,
        }
    } else {
        None
    }
}

/// A session from one listing line `name:attached:created:windows:size`;
/// lines with fewer fields or a malformed creation time are skipped, a
/// malformed window count reads as 0.
pub open spec fn session_from_fields(parts: Seq<Seq<char>>) -> Option<
    (Seq<char>, bool, i64, u32, Seq<char>),
> {
    if parts.len() >= 5 {
        match parse_i64_spec(parts[2]) {
            Some(created) => Some(
                (
                    parts[0],
                    parts[1] == seq!['1'],
                    created,
                    match parse_u32_spec(parts[3]) {
                        Some(w) => w,
                        None => 0,
                    },
                    parts[4],
                ),
            ),
            None => None,
        }
    } else {
        None
    }
}

impl TmuxWindow {
    pub open spec fn view(&self) -> (u32, Seq<char>, bool, u32) {
        (self.index, self.name@, self.active, self.panes)
    }
}

impl TmuxSession {
    pub open spec fn view(&self) -> (Seq<char>, bool, i64, u32, Seq<char>) {
        (self.name@, self.attached, self.created, self.windows, self.dimensions@)
    }
}

/// The non-empty lines of `s`.
pub open spec fn nonempty_lines(s: Seq<char>) -> Seq<Seq<char>> {
    lines_spec(s).filter(|l: Seq<char>| l.len() > 0)
}

/// The entries read from each non-empty line of a listing, in order, skipping
/// lines `read` refuses.
pub open spec fn read_listing<T>(lines: Seq<Seq<char>>, read: spec_fn(Seq<char>) -> Option<T>) -> Seq<T>
    decreases lines.len(),
{
    if lines.len() == 0 {
        seq![]
    } else {
        let rest = read_listing(lines.drop_last(), read);
        match read(lines.last()) {
            Some(x) => rest.push(x),
            None => rest,
        }
    }
}

pub open spec fn read_window_line(l: Seq<char>) -> Option<(u32, Seq<char>, bool, u32)> {
    window_from_fields(split_spec(l, ':'))
}

pub open spec fn read_session_line(l: Seq<char>) -> Option<(Seq<char>, bool, i64, u32, Seq<char>)> {
    session_from_fields(split_spec(l, ':'))
}

/// The lines of `s` with their trailing `\r` removed.
fn lines_of(s: &str) -> (r: Vec<Vec<char>>)
    ensures
        r@.map_values(|p: Vec<char>| p@) == lines_spec(s@),
{
    let cs = chars_of(s);
    let mut parts = split_chars(cs.as_slice(), '\n');
    proof {
        lemma_split_nonempty(s@, '\n');
    }
    let ghost all = parts@.map_values(|p: Vec<char>| p@);
    if parts[parts.len() - 1].len() == 0 {
        parts.pop();
    }
    let ghost kept = parts@.map_values(|p: Vec<char>| p@);
    proof {
        assert(kept =~= (if all.last().len() == 0 {
            all.drop_last()
        } else {
            all
        }));
    }
    let mut out: Vec<Vec<char>> = Vec::new();
    let mut i: usize = 0;
    while i < parts.len()
        invariant
            i <= parts@.len(),
            kept == parts@.map_values(|p: Vec<char>| p@),
            out@.len() == i,
            forall|j: int| 0 <= j < i ==> #[trigger] out@[j]@ == strip_cr(kept[j]),
        decreases parts@.len() - i,
    {
        let mut line: Vec<char> = Vec::new();
        line.extend_from_slice(parts[i].as_slice());
        if line.len() > 0 && line[line.len() - 1] == '\r' {
            line.pop();
        }
        proof {
            assert(kept[i as int] == parts@[i as int]@);
            assert(line@ =~= strip_cr(kept[i as int]));
        }
        out.push(line);
        i = i + 1;
    }
    proof {
        assert(out@.map_values(|p: Vec<char>| p@) =~= kept.map_values(|l: Seq<char>| strip_cr(l)));
    }
    out
}

fn window_of_line(line: &Vec<char>) -> (r: Option<TmuxWindow>)
    ensures
        match r {
            Some(w) => read_window_line(line@) == Some(w.view()),
            None => read_window_line(line@) is None,
        },
{
    let parts = split_chars(line.as_slice(), ':');
    proof {
        assert(parts@.map_values(|p: Vec<char>| p@).len() == parts@.len());
    }
    if parts.len() < 4 {
        return None;
    }
    proof {
        let v = parts@.map_values(|p: Vec<char>| p@);
        assert(v[0] == parts@[0]@);
        assert(v[1] == parts@[1]@);
        assert(v[2] == parts@[2]@);
        assert(v[3] == parts@[3]@);
    }
    let index = match parse_u32(parts[0].as_slice()) {
        Some(v) => v,
        None => {
            return None;
        },
    };
    let active = parts[2].len() == 1 && parts[2][0] == '1';
    proof {
        if parts@[2]@.len() == 1 && parts@[2]@[0] == '1' {
            assert(parts@[2]@ =~= seq!['1']);
        }
    }
    let panes = match parse_u32(parts[3].as_slice()) {
        Some(p) => p,
        None => 1,
    };
    Some(TmuxWindow { index, name: string_of(parts[1].as_slice()), active, panes })
}

fn session_of_line(line: &Vec<char>) -> (r: Option<TmuxSession>)
    ensures
        match r {
            Some(s) => read_session_line(line@) == Some(s.view()),
            None => read_session_line(line@) is None,
        },
{
    let parts = split_chars(line.as_slice(), ':');
    proof {
        assert(parts@.map_values(|p: Vec<char>| p@).len() == parts@.len());
    }
    if parts.len() < 5 {
        return None;
    }
    proof {
        let v = parts@.map_values(|p: Vec<char>| p@);
        assert(v[0] == parts@[0]@);
        assert(v[1] == parts@[1]@);
        assert(v[2] == parts@[2]@);
        assert(v[3] == parts@[3]@);
        assert(v[4] == parts@[4]@);
    }
    let created = match parse_i64(parts[2].as_slice()) {
        Some(v) => v,
        None => {
            return None;
        },
    };
    let attached = parts[1].len() == 1 && parts[1][0] == '1';
    proof {
        if parts@[1]@.len() == 1 && parts@[1]@[0] == '1' {
            assert(parts@[1]@ =~= seq!['1']);
        }
    }
    let windows = match parse_u32(parts[3].as_slice()) {
        Some(w) => w,
        None => 0,
    };
    Some(
        TmuxSession {
            name: string_of(parts[0].as_slice()),
            attached,
            created,
            windows,
            dimensions: string_of(parts[4].as_slice()),
        },
    )
}

/// Some session of `listing` is named `name`.
pub open spec fn session_listed(listing: Seq<TmuxSession>, name: Seq<char>) -> bool {
    exists|i: int| 0 <= i < listing.len() && #[trigger] listing[i].name@ == name
}

/// Whether the external session `name` must be created: it is not in the
/// listing, or the listing could not be had.
pub fn must_create_session(listing: Option<&Vec<TmuxSession>>, name: &str) -> (r: bool)
    ensures
        listing is None ==> r,
        listing matches Some(l) ==> r == !session_listed(l@, name@),
{
    match listing {
        None => true,
        Some(l) => {
            let target = name.to_owned();
            let mut i: usize = 0;
            while i < l.len()
                invariant
                    i <= l@.len(),
                    listing == Some(l),
                    target@ == name@,
                    forall|j: int| 0 <= j < i ==> #[trigger] l@[j].name@ != name@,
                decreases l@.len() - i,
            {
                if l[i].name == target {
                    proof {
                        assert(l@[i as int].name@ == name@);
                    }
                    return false;
                }
                i = i + 1;
            }
            true
        },
    }
}

/// Reads a window listing, one window per non-empty line.
pub fn parse_window_list(output: &str) -> (r: Vec<TmuxWindow>)
    ensures
        r@.map_values(|w: TmuxWindow| w.view()) == read_listing(
            nonempty_lines(output@),
            |l: Seq<char>| read_window_line(l),
        ),
{
    let lines = lines_of(output);
    let ghost all = lines@.map_values(|p: Vec<char>| p@);
    let mut out: Vec<TmuxWindow> = Vec::new();
    let mut i: usize = 0;
    while i < lines.len()
        invariant
            i <= lines@.len(),
            all == lines@.map_values(|p: Vec<char>| p@),
            all == lines_spec(output@),
            out@.map_values(|w: TmuxWindow| w.view()) == read_listing(
                all.subrange(0, i as int).filter(|l: Seq<char>| l.len() > 0),
                |l: Seq<char>| read_window_line(l),
            ),
        decreases lines@.len() - i,
    {
        let ghost done = all.subrange(0, i as int);
        proof {
            assert(all.subrange(0, i + 1) =~= done.push(all[i as int]));
            done.lemma_filter_push(all[i as int], |l: Seq<char>| l.len() > 0);
            assert(all[i as int] == lines@[i as int]@);
        }
        if lines[i].len() > 0 {
            let ghost f = done.filter(|l: Seq<char>| l.len() > 0);
            proof {
                assert(f.push(all[i as int]).drop_last() =~= f);
            }
            match window_of_line(&lines[i]) {
                Some(w) => {
                    proof {
                        assert(out@.push(w).map_values(|x: TmuxWindow| x.view()) =~= out@.map_values(
                            |x: TmuxWindow| x.view(),
                        ).push(w.view()));
                    }
                    out.push(w);
                },
                None => {},
            }
        }
        i = i + 1;
    }
    proof {
        assert(all.subrange(0, lines@.len() as int) =~= all);
    }
    out
}

/// Reads a session listing, one session per non-empty line.
pub fn parse_session_list(output: &str) -> (r: Vec<TmuxSession>)
    ensures
        r@.map_values(|s: TmuxSession| s.view()) == read_listing(
            nonempty_lines(output@),
            |l: Seq<char>| read_session_line(l),
        ),
{
    let lines = lines_of(output);
    let ghost all = lines@.map_values(|p: Vec<char>| p@);
    let mut out: Vec<TmuxSession> = Vec::new();
    let mut i: usize = 0;
    while i < lines.len()
        invariant
            i <= lines@.len(),
            all == lines@.map_values(|p: Vec<char>| p@),
            all == lines_spec(output@),
            out@.map_values(|s: TmuxSession| s.view()) == read_listing(
                all.subrange(0, i as int).filter(|l: Seq<char>| l.len() > 0),
                |l: Seq<char>| read_session_line(l),
            ),
        decreases lines@.len() - i,
    {
        let ghost done = all.subrange(0, i as int);
        proof {
            assert(all.subrange(0, i + 1) =~= done.push(all[i as int]));
            done.lemma_filter_push(all[i as int], |l: Seq<char>| l.len() > 0);
            assert(all[i as int] == lines@[i as int]@);
        }
        if lines[i].len() > 0 {
            let ghost f = done.filter(|l: Seq<char>| l.len() > 0);
            proof {
                assert(f.push(all[i as int]).drop_last() =~= f);
            }
            match session_of_line(&lines[i]) {
                Some(s) => {
                    proof {
                        assert(out@.push(s).map_values(|x: TmuxSession| x.view()) =~= out@.map_values(
                            |x: TmuxSession| x.view(),
                        ).push(s.view()));
                    }
                    out.push(s);
                },
                None => {},
            }
        }
        i = i + 1;
    }
    proof {
        assert(all.subrange(0, lines@.len() as int) =~= all);
    }
    out
}

} // verus!
