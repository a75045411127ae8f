//! Per-client screen diffing: the minimal set of changed lines plus cursor and
//! viewport changes relative to the snapshot a client last received.
use dashmap::DashMap;
use vstd::prelude::*;

use crate::hashing::xxh3_64_of;
use crate::terminal_parse::{SnapshotView, TerminalLine, TerminalSnapshot};

verus! {

broadcast use vstd::seq_lib::group_seq_properties;

/// A changed line: its index, text and hash.
pub struct LineDelta {
    pub line_number: u32,
    pub content: String,
    pub hash: u64,
}

impl View for LineDelta {
    type V = (u32, Seq<char>, u64);

    open spec fn view(&self) -> (u32, Seq<char>, u64) {
        (self.line_number, self.content@, self.hash)
    }
}

/// What changed between two snapshots.
pub struct TerminalDelta {
    pub changes: Vec<LineDelta>,
    pub cursor_row: Option<usize>,
    pub cursor_col: Option<usize>,
    pub viewport_top: Option<usize>,
    pub clear_screen: bool,
}

pub struct DeltaView {
    pub changes: Seq<(u32, Seq<char>, u64)>,
    pub cursor_row: Option<usize>,
    pub cursor_col: Option<usize>,
    pub viewport_top: Option<usize>,
    pub clear_screen: bool,
}

pub open spec fn line_delta_views(s: Seq<LineDelta>) -> Seq<(u32, Seq<char>, u64)> {
    s.map_values(|d: LineDelta| d@)
}

impl View for TerminalDelta {
    type V = DeltaView;

    open spec fn view(&self) -> DeltaView {
        DeltaView {
            changes: line_delta_views(self.changes@),
            cursor_row: self.cursor_row,
            cursor_col: self.cursor_col,
            viewport_top: self.viewport_top,
            clear_screen: self.clear_screen,
        }
    }
}

/// Every line of `new`, with its index.
pub open spec fn full_dump(new: SnapshotView) -> Seq<(u32, Seq<char>, u64)> {
    Seq::new(new.lines.len(), |i: int| (i as u32, new.lines[i].0, new.lines[i].1))
}

/// Line `i` of `new` is absent from `old` or has another hash there.
pub open spec fn line_changed(old: SnapshotView, new: SnapshotView, i: int) -> bool {
    i >= old.lines.len() || old.lines[i].1 != new.lines[i].1
}

/// The changed lines among the first `n` lines of `new`, in order.
pub open spec fn changed_lines(old: SnapshotView, new: SnapshotView, n: int) -> Seq<
    (u32, Seq<char>, u64),
>
    decreases n,
{
    if n <= 0 {
        seq![]
    } else if line_changed(old, new, n - 1) {
        changed_lines(old, new, n - 1).push(((n - 1) as u32, new.lines[n - 1].0, new.lines[n - 1].1))
    } else {
        changed_lines(old, new, n - 1)
    }
}

/// Blank lines for the indices `old` had beyond the end of `new`.
pub open spec fn blanked_lines(old: SnapshotView, new: SnapshotView) -> Seq<(u32, Seq<char>, u64)> {
    if old.lines.len() > new.lines.len() {
        Seq::new(
            (old.lines.len() - new.lines.len()) as nat,
            |k: int| ((new.lines.len() + k) as u32, Seq::<char>::empty(), 0u64),
        )
    } else {
        seq![]
    }
}

/// `new` has fewer than half the lines of `old`: treated as a cleared screen.
pub open spec fn looks_cleared(old: SnapshotView, new: SnapshotView) -> bool {
    2 * new.lines.len() < old.lines.len()
}

pub open spec fn changed_value(old: usize, new: usize) -> Option<usize> {
    if old != new {
        Some(new)
    } else {
        None
    }
}

/// The delta from the snapshot a client last received (if any) to `new`.
pub open spec fn expected_delta(old: Option<SnapshotView>, new: SnapshotView) -> DeltaView {
    match old {
        None => DeltaView {
            changes: full_dump(new),
            cursor_row: Some(new.cursor_row),
            cursor_col: Some(new.cursor_col),
            viewport_top: Some(new.viewport_top),
            clear_screen: true,
        },
        Some(o) => DeltaView {
            changes: if looks_cleared(o, new) {
                full_dump(new)
            } else {
                changed_lines(o, new, new.lines.len() as int) + blanked_lines(o, new)
            },
            cursor_row: changed_value(o.cursor_row, new.cursor_row),
            cursor_col: changed_value(o.cursor_col, new.cursor_col),
            viewport_top: changed_value(o.viewport_top, new.viewport_top),
            clear_screen: looks_cleared(o, new),
        },
    }
}

/// A delta that says nothing.
pub open spec fn delta_is_empty(d: DeltaView) -> bool {
    &&& d.changes.len() == 0
    &&& d.cursor_row is None
    &&& d.cursor_col is None
    &&& d.viewport_top is None
    &&& !d.clear_screen
}

pub open spec fn snapshot_view_of(s: Option<&TerminalSnapshot>) -> Option<SnapshotView> {
    match s {
        Some(t) => Some(t@),
        None => None,
    }
}

proof fn lemma_line_delta_views_push(s: Seq<LineDelta>, d: LineDelta)
    ensures
        line_delta_views(s.push(d)) == line_delta_views(s).push(d@),
{
    assert(line_delta_views(s.push(d)) =~= line_delta_views(s).push(d@));
}

fn line_delta_of(idx: usize, line: &TerminalLine) -> (r: LineDelta)
    ensures
        r@ == (idx as u32, line@.0, line@.1),
{
    LineDelta { line_number: idx as u32, content: line.content.clone(), hash: line.hash }
}

/// Every line of `new`.
fn dump_lines(new: &TerminalSnapshot) -> (r: Vec<LineDelta>)
    ensures
        line_delta_views(r@) == full_dump(new@),
{
    let mut out: Vec<LineDelta> = Vec::new();
    let mut i: usize = 0;
    while i < new.lines.len()
        invariant
            i <= new.lines@.len(),
            line_delta_views(out@) =~= full_dump(new@).subrange(0, i as int),
        decreases new.lines@.len() - i,
    {
        let d = line_delta_of(i, &new.lines[i]);
        proof {
            lemma_line_delta_views_push(out@, d);
            assert(full_dump(new@).subrange(0, i + 1) =~= full_dump(new@).subrange(0, i as int).push(
                d@,
            ));
        }
        out.push(d);
        i = i + 1;
    }
    proof {
        assert(full_dump(new@).subrange(0, new.lines@.len() as int) =~= full_dump(new@));
    }
    out
}

/// Changed lines of `new` relative to `old`, then blanks for lines that went
/// away.
fn diff_lines(old: &TerminalSnapshot, new: &TerminalSnapshot) -> (r: Vec<LineDelta>)
    ensures
        line_delta_views(r@) == changed_lines(old@, new@, new@.lines.len() as int) + blanked_lines(
            old@,
            new@,
        ),
{
    let mut out: Vec<LineDelta> = Vec::new();
    let mut i: usize = 0;
    while i < new.lines.len()
        invariant
            i <= new.lines@.len(),
            line_delta_views(out@) == changed_lines(old@, new@, i as int),
        decreases new.lines@.len() - i,
    {
        let changed = if i < old.lines.len() {
            old.lines[i].hash != new.lines[i].hash
        } else {
            true
        };
        if changed {
            let d = line_delta_of(i, &new.lines[i]);
            proof {
                lemma_line_delta_views_push(out@, d);
            }
            out.push(d);
        }
        i = i + 1;
    }
    let ghost changed_part = line_delta_views(out@);
    if old.lines.len() > new.lines.len() {
        let mut j: usize = new.lines.len();
        while j < old.lines.len()
            invariant
                new.lines@.len() <= j <= old.lines@.len(),
                line_delta_views(out@) =~= changed_part + blanked_lines(old@, new@).subrange(
                    0,
                    j - new.lines@.len(),
                ),
            decreases old.lines@.len() - j,
        {
            let d = LineDelta { line_number: j as u32, content: String::new(), hash: 0 };
            proof {
                lemma_line_delta_views_push(out@, d);
                assert(d@.1 =~= Seq::<char>::empty());
                assert(blanked_lines(old@, new@).subrange(0, j + 1 - new.lines@.len())
                    =~= blanked_lines(old@, new@).subrange(0, j - new.lines@.len()).push(d@));
            }
            out.push(d);
            j = j + 1;
        }
        proof {
            assert(blanked_lines(old@, new@).subrange(
                0,
                old.lines@.len() - new.lines@.len(),
            ) =~= blanked_lines(old@, new@));
        }
    } else {
        proof {
            assert(changed_part + blanked_lines(old@, new@) =~= changed_part);
        }
    }
    out
}

/// The delta to send a client whose last snapshot is `old` (none for a new
/// client), or `None` when nothing changed.
pub fn snapshot_delta(old: Option<&TerminalSnapshot>, new: &TerminalSnapshot) -> (r: Option<
    TerminalDelta,
>)
    ensures
        r is None <==> delta_is_empty(expected_delta(snapshot_view_of(old), new@)),
        r matches Some(d) ==> d@ == expected_delta(snapshot_view_of(old), new@),
{
    let delta = match old {
        None => TerminalDelta {
            changes: dump_lines(new),
            cursor_row: Some(new.cursor_row),
            cursor_col: Some(new.cursor_col),
            viewport_top: Some(new.viewport_top),
            clear_screen: true,
        },
        Some(o) => {
            let cleared = new.lines.len() < o.lines.len() && new.lines.len() < o.lines.len() - new.lines.len();
            let changes = if cleared {
                dump_lines(new)
            } else {
                diff_lines(o, new)
            };
            TerminalDelta {
                changes,
                cursor_row: if o.cursor_row != new.cursor_row {
                    Some(new.cursor_row)
                } else {
                    None
                },
                cursor_col: if o.cursor_col != new.cursor_col {
                    Some(new.cursor_col)
                } else {
                    None
                },
                viewport_top: if o.viewport_top != new.viewport_top {
                    Some(new.viewport_top)
                } else {
                    None
                },
                clear_screen: cleared,
            }
        },
    };
    if delta.changes.len() == 0 && delta.cursor_row.is_none() && delta.cursor_col.is_none()
        && delta.viewport_top.is_none() && !delta.clear_screen {
        None
    } else {
        Some(delta)
    }
}

/// Snapshots keyed by client id.
pub type SnapshotMap = DashMap<String, TerminalSnapshot>;


/// The decimal digits of `n`.
pub open spec fn decimal_spec(n: nat) -> Seq<char>
    decreases n,
{
    if n < 10 {
        seq![(n + 48) as char]
    } else {
        decimal_spec(n / 10) + seq![((n % 10) + 48) as char]
    }
}

fn digit_char(d: u8) -> (r: char)
    requires
        d < 10,
    ensures
        r == ((d as nat) + 48) as char,
{
    if d == 0 {
        '0'
    } else if d == 1 {
        '1'
    } else if d == 2 {
        '2'
    } else if d == 3 {
        '3'
    } else if d == 4 {
        '4'
    } else if d == 5 {
        '5'
    } else if d == 6 {
        '6'
    } else if d == 7 {
        '7'
    } else if d == 8 {
        '8'
    } else {
        '9'
    }
}

fn push_decimal(out: &mut Vec<char>, n: u128)
    ensures
        final(out)@ == old(out)@ + decimal_spec(n as nat),
    decreases n,
{
    if n >= 10 {
        push_decimal(out, n / 10);
    }
    let c = digit_char((n % 10) as u8);
    out.push(c);
    proof {
        assert(final(out)@ =~= old(out)@ + decimal_spec(n as nat));
    }
}

/// Escape, `[`.
pub open spec fn csi() -> Seq<char> {
    seq!['\x1b', '[']
}

/// The text that applies one changed line: move to its row, clear it, write
/// its content.
pub open spec fn render_line(c: (u32, Seq<char>, u64)) -> Seq<char> {
    csi() + decimal_spec(c.0 as nat + 1) + seq![';', '1', 'H'] + csi() + seq!['2', 'K'] + c.1
}

pub open spec fn render_lines(cs: Seq<(u32, Seq<char>, u64)>) -> Seq<char>
    decreases cs.len(),
{
    if cs.len() == 0 {
        seq![]
    } else {
        render_lines(cs.drop_last()) + render_line(cs.last())
    }
}

/// A delta as terminal output: clear and home the screen if it says so,
/// rewrite each changed line, then place the cursor when both of its
/// coordinates are given.
pub open spec fn render_spec(d: DeltaView) -> Seq<char> {
    (if d.clear_screen {
        csi() + seq!['2', 'J'] + csi() + seq!['H']
    } else {
        seq![]
    }) + render_lines(d.changes) + match (d.cursor_row, d.cursor_col) {
        (Some(row), Some(col)) => csi() + decimal_spec(row as nat + 1) + seq![';'] + decimal_spec(
            col as nat + 1,
        ) + seq!['H'],
        _ => seq![],
    }
}

fn push_csi(out: &mut Vec<char>)
    ensures
        final(out)@ == old(out)@ + csi(),
{
    out.push('\x1b');
    out.push('[');
    proof {
        assert(final(out)@ =~= old(out)@ + csi());
    }
}

fn push_str_chars(out: &mut Vec<char>, s: &str)
    ensures
        final(out)@ == old(out)@ + s@,
{
    let cs = crate::text::chars_of(s);
    let mut i: usize = 0;
    while i < cs.len()
        invariant
            i <= cs@.len(),
            out@ == old(out)@ + cs@.subrange(0, i as int),
        decreases cs@.len() - i,
    {
        out.push(cs[i]);
        proof {
            assert(out@ =~= old(out)@ + cs@.subrange(0, i + 1));
        }
        i = i + 1;
    }
    proof {
        assert(cs@.subrange(0, cs@.len() as int) =~= s@);
    }
}

/// Renders a delta as terminal output text.
pub fn render_delta(delta: &TerminalDelta) -> (r: String)
    ensures
        r@ == render_spec(delta@),
{
    let mut out: Vec<char> = Vec::new();
    if delta.clear_screen {
        push_csi(&mut out);
        out.push('2');
        out.push('J');
        push_csi(&mut out);
        out.push('H');
    }
    proof {
        assert(out@ =~= (if delta.clear_screen {
            csi() + seq!['2', 'J'] + csi() + seq!['H']
        } else {
            seq![]
        }));
    }
    let ghost head = out@;
    let ghost changes = delta@.changes;
    let mut i: usize = 0;
    while i < delta.changes.len()
        invariant
            i <= delta.changes@.len(),
            changes == line_delta_views(delta.changes@),
            out@ == head + render_lines(changes.subrange(0, i as int)),
        decreases delta.changes@.len() - i,
    {
        let change = &delta.changes[i];
        let ghost before = out@;
        push_csi(&mut out);
        push_decimal(&mut out, change.line_number as u128 + 1);
        out.push(';');
        out.push('1');
        out.push('H');
        push_csi(&mut out);
        out.push('2');
        out.push('K');
        push_str_chars(&mut out, change.content.as_str());
        proof {
            assert(changes[i as int] == change@);
            assert(out@ =~= before + render_line(changes[i as int]));
            assert(changes.subrange(0, i + 1).drop_last() =~= changes.subrange(0, i as int));
            assert(out@ =~= head + render_lines(changes.subrange(0, i + 1)));
        }
        i = i + 1;
    }
    proof {
        assert(changes.subrange(0, changes.len() as int) =~= changes);
    }
    let ghost body = out@;
    match (delta.cursor_row, delta.cursor_col) {
        (Some(row), Some(col)) => {
            push_csi(&mut out);
            push_decimal(&mut out, row as u128 + 1);
            out.push(';');
            push_decimal(&mut out, col as u128 + 1);
            out.push('H');
            proof {
                assert(out@ =~= body + (csi() + decimal_spec(row as nat + 1) + seq![';']
                    + decimal_spec(col as nat + 1) + seq!['H']));
            }
        },
        _ => {
            proof {
                assert(out@ =~= body + Seq::<char>::empty());
            }
        },
    }
    proof {
        assert(out@ =~= render_spec(delta@));
    }
    crate::text::string_of(out.as_slice())
}

/// The snapshots held per client key.
pub uninterp spec fn snapshot_map_view(m: SnapshotMap) -> Map<
    Seq<char>,
    SnapshotView,
>;

/// Relies on `DashMap::new`: the map starts empty.
#[verifier::external_body]
fn snapshot_map_new() -> (r: SnapshotMap)
    ensures
        snapshot_map_view(r).dom() == Set::<Seq<char>>::empty(),
{
    DashMap::new()
}

/// Relies on `DashMap::insert`: the key now maps to the value, and the value
/// it replaced, if any, is returned.
#[verifier::external_body]
fn snapshot_map_insert(m: &mut SnapshotMap, k: String, v: TerminalSnapshot) -> (r: Option<
    TerminalSnapshot,
>)
    ensures
        snapshot_map_view(*final(m)) == snapshot_map_view(*old(m)).insert(k@, v@),
        r is Some == snapshot_map_view(*old(m)).contains_key(k@),
        r matches Some(s) ==> s@ == snapshot_map_view(*old(m))[k@],
{
    m.insert(k, v)
}

/// Relies on `DashMap::remove`: the key no longer maps to anything.
#[verifier::external_body]
fn snapshot_map_remove(m: &mut SnapshotMap, k: &str)
    ensures
        snapshot_map_view(*final(m)) == snapshot_map_view(*old(m)).remove(k@),
{
    m.remove(k);
}

/// The last snapshot sent to each client.
pub struct TerminalDeltaTracker {
    client_snapshots: SnapshotMap,
}

impl TerminalDeltaTracker {
    /// Last snapshot per client id.
    pub closed spec fn snapshots(&self) -> Map<Seq<char>, SnapshotView> {
        snapshot_map_view(self.client_snapshots)
    }

    pub fn new() -> (r: Self)
        ensures
            r.snapshots().dom() == Set::<Seq<char>>::empty(),
    {
        TerminalDeltaTracker { client_snapshots: snapshot_map_new() }
    }

    /// Parses terminal output into a snapshot.
    pub fn parse_terminal_output(&self, data: &str) -> (r: TerminalSnapshot)
        ensures
            r@ == crate::terminal_parse::parse_spec(data@),
            crate::terminal_parse::lines_hashed(r@),
    {
        crate::terminal_parse::parse_terminal_output(data)
    }

    /// The delta for `client_id` from its last snapshot to `new_snapshot`,
    /// which then becomes its last snapshot whether or not a delta is
    /// returned.
    pub fn compute_delta(&mut self, client_id: &str, new_snapshot: &TerminalSnapshot) -> (r: Option<
        TerminalDelta,
    >)
        ensures
            final(self).snapshots() == old(self).snapshots().insert(client_id@, new_snapshot@),
            r is None <==> delta_is_empty(
                expected_delta(old(self).snapshots().get(client_id@), new_snapshot@),
            ),
            r matches Some(d) ==> d@ == expected_delta(
                old(self).snapshots().get(client_id@),
                new_snapshot@,
            ),
    {
        let key = client_id.to_owned();
        let previous = snapshot_map_insert(&mut self.client_snapshots, key, new_snapshot.duplicate());
        match &previous {
            Some(p) => snapshot_delta(Some(p), new_snapshot),
            None => snapshot_delta(None, new_snapshot),
        }
    }

    /// Forgets the snapshot of a disconnected client.
    pub fn remove_client(&mut self, client_id: &str)
        ensures
            final(self).snapshots() == old(self).snapshots().remove(client_id@),
    {
        snapshot_map_remove(&mut self.client_snapshots, client_id);
    }
}

/// The first delta for a client always clears the screen and sends every
/// line, with the cursor and viewport.
pub proof fn lemma_first_delta_is_full(new: SnapshotView)
    ensures
        expected_delta(None, new).clear_screen,
        expected_delta(None, new).changes == full_dump(new),
        expected_delta(None, new).changes.len() == new.lines.len(),
        forall|i: int|
            0 <= i < new.lines.len() ==> #[trigger] expected_delta(None, new).changes[i] == (
                i as u32,
                new.lines[i].0,
                new.lines[i].1,
            ),
        !delta_is_empty(expected_delta(None, new)),
{
}

proof fn lemma_no_changed_lines_when_equal(s: SnapshotView, n: int)
    requires
        n <= s.lines.len(),
    ensures
        changed_lines(s, s, n) == Seq::<(u32, Seq<char>, u64)>::empty(),
    decreases n,
{
    if n > 0 {
        lemma_no_changed_lines_when_equal(s, n - 1);
    }
}

/// A snapshot identical to the client's last one yields no delta.
pub proof fn lemma_identical_snapshot_no_delta(s: SnapshotView)
    ensures
        delta_is_empty(expected_delta(Some(s), s)),
{
    lemma_no_changed_lines_when_equal(s, s.lines.len() as int);
    assert(blanked_lines(s, s) =~= Seq::<(u32, Seq<char>, u64)>::empty());
}

/// A snapshot with fewer than half the lines of the previous one clears the
/// screen and sends every line instead of a line-by-line diff.
pub proof fn lemma_shrunk_snapshot_clears(old: SnapshotView, new: SnapshotView)
    requires
        2 * new.lines.len() < old.lines.len(),
    ensures
        expected_delta(Some(old), new).clear_screen,
        expected_delta(Some(old), new).changes == full_dump(new),
{
}


/// `e` is the entry for a line of `new` that the client does not hold yet:
/// beyond the end of `old`, or with text other than `old` has there.
pub open spec fn is_new_line_entry(old: SnapshotView, new: SnapshotView, e: (u32, Seq<char>, u64)) -> bool {
    exists|j: int|
        0 <= j < new.lines.len() && e == (j as u32, new.lines[j].0, new.lines[j].1) && (j
            >= old.lines.len() || old.lines[j].0 != new.lines[j].0)
}

proof fn lemma_changed_entries_are_new(old: SnapshotView, new: SnapshotView, n: int)
    requires
        crate::terminal_parse::lines_hashed(old),
        crate::terminal_parse::lines_hashed(new),
        0 <= n <= new.lines.len(),
    ensures
        forall|k: int|
            0 <= k < changed_lines(old, new, n).len() ==> is_new_line_entry(
                old,
                new,
                #[trigger] changed_lines(old, new, n)[k],
            ),
    decreases n,
{
    if n > 0 {
        lemma_changed_entries_are_new(old, new, n - 1);
        let j = n - 1;
        if line_changed(old, new, j) {
            let e = (j as u32, new.lines[j].0, new.lines[j].1);
            if j < old.lines.len() && old.lines[j].0 == new.lines[j].0 {
                assert(old.lines[j].1 == xxh3_64_of(vstd::utf8::encode_utf8(old.lines[j].0)));
                assert(new.lines[j].1 == xxh3_64_of(vstd::utf8::encode_utf8(new.lines[j].0)));
            }
            assert(is_new_line_entry(old, new, e));
            let prev = changed_lines(old, new, n - 1);
            assert forall|k: int| 0 <= k < prev.push(e).len() implies is_new_line_entry(
                old,
                new,
                #[trigger] prev.push(e)[k],
            ) by {
                if k < prev.len() {
                    assert(prev.push(e)[k] == prev[k]);
                }
            }
        }
    }
}

/// When a delta is a line-by-line diff of snapshots whose hashes match their
/// text (as parsed snapshots' do), every changed-line entry is for a line the
/// client does not already hold byte for byte: identical lines are never
/// sent again.
pub proof fn lemma_identical_lines_not_resent(old: SnapshotView, new: SnapshotView)
    requires
        crate::terminal_parse::lines_hashed(old),
        crate::terminal_parse::lines_hashed(new),
        !looks_cleared(old, new),
    ensures
        forall|k: int|
            0 <= k < changed_lines(old, new, new.lines.len() as int).len() ==> is_new_line_entry(
                old,
                new,
                #[trigger] expected_delta(Some(old), new).changes[k],
            ),
{
    lemma_changed_entries_are_new(old, new, new.lines.len() as int);
    let c = changed_lines(old, new, new.lines.len() as int);
    assert forall|k: int| 0 <= k < c.len() implies is_new_line_entry(
        old,
        new,
        #[trigger] expected_delta(Some(old), new).changes[k],
    ) by {
        assert(expected_delta(Some(old), new).changes[k] == c[k]);
    }
}

/// Two calls in a row with the same snapshot: the second returns nothing.
pub proof fn lemma_repeated_snapshot_no_delta(
    before: Map<Seq<char>, SnapshotView>,
    client: Seq<char>,
    s: SnapshotView,
)
    ensures
        delta_is_empty(expected_delta(before.insert(client, s).get(client), s)),
{
    assert(before.insert(client, s).get(client) == Some(s));
    lemma_identical_snapshot_no_delta(s);
}

} // verus!
