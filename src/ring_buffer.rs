//! A multi-reader, single-writer byte buffer of bounded size with a cursor per
//! reader. Space is reclaimed by compaction: bytes that every attached reader
//! has consumed are discarded and all cursors shift down accordingly.
use bytes::BytesMut;
use dashmap::DashMap;
use vstd::prelude::*;

verus! {

broadcast use vstd::seq_lib::group_seq_properties;

#[verifier::external_type_specification]
#[verifier::external_body]
pub struct ExBytesMut(BytesMut);

/// The bytes a `BytesMut` holds.
pub uninterp spec fn bytes_mut_view(b: BytesMut) -> Seq<u8>;

/// Relies on `BytesMut::with_capacity`: the buffer starts empty.
#[verifier::external_body]
fn bytes_with_capacity(capacity: usize) -> (r: BytesMut)
    ensures
        bytes_mut_view(r) == Seq::<u8>::empty(),
{
    BytesMut::with_capacity(capacity)
}

/// Relies on `BytesMut::len`: the number of bytes held.
#[verifier::external_body]
fn bytes_len(b: &BytesMut) -> (r: usize)
    ensures
        r == bytes_mut_view(*b).len(),
{
    b.len()
}

/// Relies on `BytesMut::extend_from_slice`: the bytes are appended.
#[verifier::external_body]
fn bytes_extend(b: &mut BytesMut, data: &[u8])
    ensures
        bytes_mut_view(*final(b)) == bytes_mut_view(*old(b)) + data@,
{
    b.extend_from_slice(data)
}

/// Relies on `BytesMut::split_off`: the buffer keeps `[0, at)` and returns
/// `[at, len)`, which then replaces it; `at` past the end panics.
#[verifier::external_body]
fn bytes_drop_front(b: &mut BytesMut, at: usize)
    requires
        at <= bytes_mut_view(*old(b)).len(),
    ensures
        bytes_mut_view(*final(b)) == bytes_mut_view(*old(b)).subrange(
            at as int,
            bytes_mut_view(*old(b)).len() as int,
        ),
{
    let rest = b.split_off(at);
    *b = rest;
}

/// Relies on `BytesMut`'s dereference to a byte slice: the bytes of
/// `[lo, hi)`, copied.
#[verifier::external_body]
fn bytes_copy_range(b: &BytesMut, lo: usize, hi: usize) -> (r: Vec<u8>)
    requires
        lo <= hi <= bytes_mut_view(*b).len(),
    ensures
        r@ == bytes_mut_view(*b).subrange(lo as int, hi as int),
{
    b[lo..hi].to_vec()
}

/// Reader cursors keyed by reader id.
pub type PositionMap = DashMap<String, usize>;

/// The cursor of each reader.
pub uninterp spec fn position_map_view(m: PositionMap) -> Map<Seq<char>, usize>;

/// Relies on `DashMap::new`: the map starts empty.
#[verifier::external_body]
fn positions_new() -> (r: PositionMap)
    ensures
        position_map_view(r).dom() == Set::<Seq<char>>::empty(),
{
    DashMap::new()
}

/// Relies on `DashMap::insert`: the key now maps to the value.
#[verifier::external_body]
fn positions_insert(m: &mut PositionMap, k: String, v: usize)
    ensures
        position_map_view(*final(m)) == position_map_view(*old(m)).insert(k@, v),
{
    m.insert(k, v);
}

/// Relies on `DashMap::get`: the value the key maps to, if any.
#[verifier::external_body]
fn positions_get(m: &PositionMap, k: &str) -> (r: Option<usize>)
    ensures
        r == position_map_view(*m).get(k@),
{
    m.get(k).map(|e| *e.value())
}

/// Relies on `DashMap::remove`: the key no longer maps to anything.
#[verifier::external_body]
fn positions_remove(m: &mut PositionMap, k: &str)
    ensures
        position_map_view(*final(m)) == position_map_view(*old(m)).remove(k@),
{
    m.remove(k);
}

/// Relies on `DashMap::len`: the number of entries.
#[verifier::external_body]
fn positions_len(m: &PositionMap) -> (r: usize)
    ensures
        r == position_map_view(*m).dom().len(),
{
    m.len()
}

/// Relies on `DashMap::iter`: each entry is visited, so every key is listed
/// and nothing else is.
#[verifier::external_body]
fn positions_keys(m: &PositionMap) -> (r: Vec<String>)
    ensures
        forall|i: int| 0 <= i < r@.len() ==> position_map_view(*m).contains_key(#[trigger] r@[i]@),
        forall|k: Seq<char>|
            #[trigger] position_map_view(*m).contains_key(k) ==> exists|i: int|
                0 <= i < r@.len() && #[trigger] r@[i]@ == k,
{
    m.iter().map(|e| e.key().clone()).collect()
}

#[derive(Debug, Clone, Copy, PartialEq, Eq, Structural)]
pub enum BufferError {
    /// The write is larger than half the buffer's capacity.
    DataTooLarge,
    /// The write does not fit even after compaction.
    BufferFull,
    /// No reader with that id is attached.
    ReaderNotFound,
}

/// Counters kept by the buffer.
pub struct BufferStats {
    bytes_written: u64,
    bytes_read: u64,
    messages_written: u64,
    overruns: u64,
}

#[derive(Debug, Clone, Copy)]
pub struct BufferStatsSnapshot {
    pub bytes_written: u64,
    pub bytes_read: u64,
    pub messages_written: u64,
    pub overruns: u64,
    pub buffer_size: usize,
    pub reader_count: usize,
}

/// The buffer's content: the retained bytes, each reader's cursor into them,
/// and the capacity.
pub struct RingView {
    pub data: Seq<u8>,
    pub readers: Map<Seq<char>, usize>,
    pub max_size: usize,
}

pub open spec fn ring_wf(v: RingView) -> bool {
    &&& v.data.len() <= v.max_size
    &&& v.readers.dom().finite()
    &&& forall|k: Seq<char>| #[trigger] v.readers.contains_key(k) ==> v.readers[k] <= v.data.len()
}

/// `m` is the smallest reader cursor.
pub open spec fn is_min_offset(readers: Map<Seq<char>, usize>, m: usize) -> bool {
    &&& exists|k: Seq<char>| #[trigger] readers.contains_key(k) && readers[k] == m
    &&& forall|k: Seq<char>| #[trigger] readers.contains_key(k) ==> m <= readers[k]
}

/// How far compaction may discard: the slowest reader's cursor, or 0 when no
/// reader is attached.
pub open spec fn compaction_floor(readers: Map<Seq<char>, usize>) -> usize {
    if exists|m: usize| is_min_offset(readers, m) {
        choose|m: usize| is_min_offset(readers, m)
    } else {
        0
    }
}

/// The buffer after compaction.
pub open spec fn compacted(v: RingView) -> RingView {
    let m = compaction_floor(v.readers);
    if m > 0 {
        RingView {
            data: v.data.subrange(m as int, v.data.len() as int),
            readers: v.readers.map_values(|o: usize| (o - m) as usize),
            max_size: v.max_size,
        }
    } else {
        v
    }
}

/// The bytes reader `k` has not consumed yet.
pub open spec fn unread(v: RingView, k: Seq<char>) -> Seq<u8> {
    v.data.subrange(v.readers[k] as int, v.data.len() as int)
}

/// Result and new content of writing `d`: too large, or compaction when it
/// would not fit, then full or appended.
pub open spec fn write_outcome(v: RingView, d: Seq<u8>) -> (Result<(), BufferError>, RingView) {
    if d.len() > v.max_size / 2 {
        (Err(BufferError::DataTooLarge), v)
    } else {
        let c = if v.data.len() + d.len() > v.max_size {
            compacted(v)
        } else {
            v
        };
        if c.data.len() + d.len() > v.max_size {
            (Err(BufferError::BufferFull), c)
        } else {
            (Ok(()), RingView { data: c.data + d, ..c })
        }
    }
}

/// What reader `k` receives from a non-blocking read, and the content after:
/// all unread bytes, after which its cursor is at the end.
pub open spec fn read_outcome(v: RingView, k: Seq<char>) -> (Option<Seq<u8>>, RingView) {
    if !v.readers.contains_key(k) || v.readers[k] >= v.data.len() {
        (None, v)
    } else {
        (Some(unread(v, k)), RingView { readers: v.readers.insert(k, v.data.len() as usize), ..v })
    }
}

proof fn lemma_floor_is_min(readers: Map<Seq<char>, usize>, m: usize)
    requires
        is_min_offset(readers, m),
    ensures
        compaction_floor(readers) == m,
{
    let c = choose|x: usize| is_min_offset(readers, x);
    let k1 = choose|k: Seq<char>| #[trigger] readers.contains_key(k) && readers[k] == c;
    let k2 = choose|k: Seq<char>| #[trigger] readers.contains_key(k) && readers[k] == m;
    assert(c <= readers[k2]);
    assert(m <= readers[k1]);
}

proof fn lemma_floor_of_empty(readers: Map<Seq<char>, usize>)
    requires
        readers.dom() == Set::<Seq<char>>::empty(),
    ensures
        compaction_floor(readers) == 0,
{
    if exists|m: usize| is_min_offset(readers, m) {
        let m = choose|m: usize| is_min_offset(readers, m);
        let k = choose|k: Seq<char>| #[trigger] readers.contains_key(k) && readers[k] == m;
        assert(readers.dom().contains(k));
    }
}

/// A finite, non-empty set of cursors has a smallest one.
pub proof fn lemma_min_offset_exists(readers: Map<Seq<char>, usize>)
    requires
        readers.dom().finite(),
        readers.dom().len() > 0,
    ensures
        exists|m: usize| is_min_offset(readers, m),
    decreases readers.dom().len(),
{
    let k0 = readers.dom().choose();
    let rest = readers.remove(k0);
    assert(rest.dom() =~= readers.dom().remove(k0));
    if rest.dom().len() == 0 {
        assert forall|k: Seq<char>| #[trigger] readers.contains_key(k) implies readers[k0] <= readers[k] by {
            if k != k0 {
                assert(rest.dom().contains(k));
            }
        }
        assert(is_min_offset(readers, readers[k0]));
    } else {
        lemma_min_offset_exists(rest);
        let m = choose|m: usize| is_min_offset(rest, m);
        let km = choose|k: Seq<char>| #[trigger] rest.contains_key(k) && rest[k] == m;
        let best: usize = if readers[k0] < m { readers[k0] } else { m };
        assert forall|k: Seq<char>| #[trigger] readers.contains_key(k) implies best <= readers[k] by {
            if k != k0 {
                assert(rest.contains_key(k));
            }
        }
        if readers[k0] < m {
            assert(is_min_offset(readers, best));
        } else {
            assert(readers.contains_key(km) && readers[km] == best);
            assert(is_min_offset(readers, best));
        }
    }
}

/// Compaction discards only bytes below the slowest reader's cursor: every
/// attached reader keeps exactly the bytes it has not read, and the buffer
/// stays well formed.
pub proof fn lemma_compaction_keeps_unread(v: RingView)
    requires
        ring_wf(v),
    ensures
        ring_wf(compacted(v)),
        compacted(v).readers.dom() == v.readers.dom(),
        compacted(v).max_size == v.max_size,
        compacted(v).data == v.data.subrange(compaction_floor(v.readers) as int, v.data.len() as int),
        forall|k: Seq<char>| #[trigger] v.readers.contains_key(k) ==> compaction_floor(v.readers) <= v.readers[k],
        forall|k: Seq<char>| #[trigger] v.readers.contains_key(k) ==> unread(compacted(v), k) == unread(v, k),
{
    let m = compaction_floor(v.readers);
    if v.readers.dom().len() > 0 {
        lemma_min_offset_exists(v.readers);
        let w = choose|x: usize| is_min_offset(v.readers, x);
        lemma_floor_is_min(v.readers, w);
        let k0 = choose|k: Seq<char>| #[trigger] v.readers.contains_key(k) && v.readers[k] == w;
        assert(m <= v.data.len());
    } else {
        assert(v.readers.dom() =~= Set::<Seq<char>>::empty());
        lemma_floor_of_empty(v.readers);
    }
    if m > 0 {
        let c = compacted(v);
        assert(c.readers.dom() =~= v.readers.dom());
        assert forall|k: Seq<char>| #[trigger] v.readers.contains_key(k) implies unread(c, k) == unread(
            v,
            k,
        ) by {
            assert(unread(c, k) =~= unread(v, k));
        }
    } else {
        assert(v.data.subrange(0, v.data.len() as int) =~= v.data);
    }
}


/// A write never takes away bytes a reader has not read (compaction discards
/// only what every attached reader has consumed), and a successful write adds
/// the written bytes after each reader's unread bytes.
pub proof fn lemma_write_keeps_unread(v: RingView, d: Seq<u8>)
    requires
        ring_wf(v),
    ensures
        ring_wf(write_outcome(v, d).1),
        write_outcome(v, d).1.readers.dom() == v.readers.dom(),
        forall|k: Seq<char>|
            #[trigger] v.readers.contains_key(k) ==> unread(write_outcome(v, d).1, k) == unread(v, k) + (
            if write_outcome(v, d).0 is Ok {
                d
            } else {
                Seq::<u8>::empty()
            }),
{
    lemma_compaction_keeps_unread(v);
    let c = if v.data.len() + d.len() > v.max_size {
        compacted(v)
    } else {
        v
    };
    let (res, after) = write_outcome(v, d);
    assert forall|k: Seq<char>| #[trigger] v.readers.contains_key(k) implies unread(after, k) == unread(
        v,
        k,
    ) + (if res is Ok {
        d
    } else {
        Seq::<u8>::empty()
    }) by {
        if d.len() > v.max_size / 2 {
            assert(unread(v, k) + Seq::<u8>::empty() =~= unread(v, k));
        } else if res is Ok {
            assert(c.readers.contains_key(k));
            assert(unread(after, k) =~= unread(c, k) + d);
        } else {
            assert(unread(c, k) + Seq::<u8>::empty() =~= unread(c, k));
        }
    }
}


/// An operation on the buffer: a write, or a non-blocking read by a reader.
pub enum RingOp {
    Write(Seq<u8>),
    Read(Seq<char>),
}

/// The buffer after `op`.
pub open spec fn apply_op(v: RingView, op: RingOp) -> RingView {
    match op {
        RingOp::Write(d) => write_outcome(v, d).1,
        RingOp::Read(r) => read_outcome(v, r).1,
    }
}

/// The buffer after `ops`, in order.
pub open spec fn run_ops(v: RingView, ops: Seq<RingOp>) -> RingView
    decreases ops.len(),
{
    if ops.len() == 0 {
        v
    } else {
        run_ops(apply_op(v, ops[0]), ops.drop_first())
    }
}

/// The bytes reader `k` receives from its reads among `ops`.
pub open spec fn received(v: RingView, ops: Seq<RingOp>, k: Seq<char>) -> Seq<u8>
    decreases ops.len(),
{
    if ops.len() == 0 {
        seq![]
    } else {
        let got = match ops[0] {
            RingOp::Read(r) => if r == k {
                match read_outcome(v, k).0 {
                    Some(b) => b,
                    None => seq![],
                }
            } else {
                seq![]
            },
            RingOp::Write(_) => seq![],
        };
        got + received(apply_op(v, ops[0]), ops.drop_first(), k)
    }
}

/// The bytes of the writes among `ops` that succeeded, in order.
pub open spec fn accepted(v: RingView, ops: Seq<RingOp>) -> Seq<u8>
    decreases ops.len(),
{
    if ops.len() == 0 {
        seq![]
    } else {
        let put = match ops[0] {
            RingOp::Write(d) => if write_outcome(v, d).0 is Ok {
                d
            } else {
                seq![]
            },
            RingOp::Read(_) => seq![],
        };
        put + accepted(apply_op(v, ops[0]), ops.drop_first())
    }
}

proof fn lemma_read_keeps_others(v: RingView, r: Seq<char>, k: Seq<char>)
    requires
        ring_wf(v),
        v.readers.contains_key(k),
    ensures
        ring_wf(read_outcome(v, r).1),
        read_outcome(v, r).1.readers.contains_key(k),
        r != k ==> unread(read_outcome(v, r).1, k) == unread(v, k),
        r == k ==> unread(read_outcome(v, r).1, k) == Seq::<u8>::empty(),
        r == k ==> match read_outcome(v, k).0 {
            Some(b) => b == unread(v, k),
            None => unread(v, k) == Seq::<u8>::empty(),
        },
{
    if r == k && v.readers[k] >= v.data.len() {
        assert(unread(v, k) =~= Seq::<u8>::empty());
    }
    if r == k && v.readers[k] < v.data.len() {
        assert(unread(read_outcome(v, r).1, k) =~= Seq::<u8>::empty());
    }
}

/// Whatever writes and reads happen, in any interleaving, a reader attached
/// throughout receives exactly the bytes it had not read plus every accepted
/// write, in order and once each: what it received followed by what it has
/// still to read is that sequence.
pub proof fn lemma_reader_sees_accepted_writes_in_order(v: RingView, ops: Seq<RingOp>, k: Seq<char>)
    requires
        ring_wf(v),
        v.readers.contains_key(k),
    ensures
        ring_wf(run_ops(v, ops)),
        run_ops(v, ops).readers.contains_key(k),
        received(v, ops, k) + unread(run_ops(v, ops), k) == unread(v, k) + accepted(v, ops),
    decreases ops.len(),
{
    if ops.len() == 0 {
        assert(Seq::<u8>::empty() + unread(v, k) =~= unread(v, k) + Seq::<u8>::empty());
    } else {
        let v1 = apply_op(v, ops[0]);
        let rest = ops.drop_first();
        match ops[0] {
            RingOp::Write(d) => {
                lemma_write_keeps_unread(v, d);
            },
            RingOp::Read(r) => {
                lemma_read_keeps_others(v, r, k);
            },
        }
        lemma_reader_sees_accepted_writes_in_order(v1, rest, k);
        match ops[0] {
            RingOp::Write(d) => {
                let put = if write_outcome(v, d).0 is Ok {
                    d
                } else {
                    Seq::<u8>::empty()
                };
                assert(received(v, ops, k) =~= received(v1, rest, k));
                assert(accepted(v, ops) =~= put + accepted(v1, rest));
                assert(unread(v1, k) == unread(v, k) + put);
                assert(received(v1, rest, k) + unread(run_ops(v1, rest), k) == unread(v1, k) + accepted(
                    v1,
                    rest,
                ));
                assert(unread(v, k) + put + accepted(v1, rest) =~= unread(v, k) + (put + accepted(
                    v1,
                    rest,
                )));
            },
            RingOp::Read(r) => {
                assert(accepted(v, ops) =~= accepted(v1, rest));
                if r == k {
                    let g = match read_outcome(v, k).0 {
                        Some(b) => b,
                        None => Seq::<u8>::empty(),
                    };
                    assert(g == unread(v, k));
                    assert(received(v, ops, k) =~= g + received(v1, rest, k));
                    assert(Seq::<u8>::empty() + accepted(v1, rest) =~= accepted(v1, rest));
                    assert(g + received(v1, rest, k) + unread(run_ops(v1, rest), k) =~= g + (received(
                        v1,
                        rest,
                        k,
                    ) + unread(run_ops(v1, rest), k)));
                } else {
                    assert(received(v, ops, k) =~= received(v1, rest, k));
                }
            },
        }
    }
}

/// All readers have consumed everything.
pub open spec fn all_caught_up(v: RingView) -> bool {
    forall|k: Seq<char>| #[trigger] v.readers.contains_key(k) ==> v.readers[k] == v.data.len()
}

/// Every reader consumes what it has not read yet.
pub open spec fn catch_up_all(v: RingView) -> RingView {
    RingView { readers: v.readers.map_values(|o: usize| v.data.len() as usize), ..v }
}

/// With at least one reader attached and every reader keeping up, a write of
/// at most half the capacity succeeds, each reader then receives exactly the
/// written bytes, and once all have read, every reader is caught up again.
pub proof fn lemma_write_reaches_caught_up_readers(v: RingView, d: Seq<u8>)
    requires
        ring_wf(v),
        v.readers.dom().len() > 0,
        all_caught_up(v),
        d.len() <= v.max_size / 2,
    ensures
        write_outcome(v, d).0 is Ok,
        ring_wf(write_outcome(v, d).1),
        write_outcome(v, d).1.readers.dom() == v.readers.dom(),
        forall|k: Seq<char>| #[trigger] v.readers.contains_key(k) ==> unread(write_outcome(v, d).1, k) == d,
        forall|k: Seq<char>|
            #[trigger] v.readers.contains_key(k) ==> read_outcome(write_outcome(v, d).1, k).0 == (if d.len()
                > 0 {
                Some(d)
            } else {
                None::<Seq<u8>>
            }),
        ring_wf(catch_up_all(write_outcome(v, d).1)),
        all_caught_up(catch_up_all(write_outcome(v, d).1)),
        catch_up_all(write_outcome(v, d).1).readers.dom() == v.readers.dom(),
        catch_up_all(write_outcome(v, d).1).max_size == v.max_size,
{
    lemma_compaction_keeps_unread(v);
    lemma_min_offset_exists(v.readers);
    let w = choose|x: usize| is_min_offset(v.readers, x);
    lemma_floor_is_min(v.readers, w);
    let k0 = choose|k: Seq<char>| #[trigger] v.readers.contains_key(k) && v.readers[k] == w;
    assert(w == v.data.len());
    let c = if v.data.len() + d.len() > v.max_size {
        compacted(v)
    } else {
        v
    };
    if v.data.len() + d.len() > v.max_size {
        assert(c.data.len() == 0);
    }
    let after = write_outcome(v, d).1;
    assert(after.data == c.data + d);
    assert forall|k: Seq<char>| #[trigger] v.readers.contains_key(k) implies unread(after, k) == d by {
        assert(c.readers[k] == c.data.len());
        assert(unread(after, k) =~= d);
    }
    assert(catch_up_all(after).readers.dom() =~= v.readers.dom());
}

/// What reader `k` receives when, after each write of `ws` in turn, every
/// attached reader reads; `None` if some write fails.
pub open spec fn delivered(v: RingView, ws: Seq<Seq<u8>>, k: Seq<char>) -> Option<Seq<u8>>
    decreases ws.len(),
{
    if ws.len() == 0 {
        Some(Seq::empty())
    } else {
        let (res, after) = write_outcome(v, ws[0]);
        if res is Err {
            None
        } else {
            match delivered(catch_up_all(after), ws.drop_first(), k) {
                Some(rest) => Some(unread(after, k) + rest),
                None => None,
            }
        }
    }
}

/// The bytes of `ws`, concatenated in order.
pub open spec fn concat_all(ws: Seq<Seq<u8>>) -> Seq<u8>
    decreases ws.len(),
{
    if ws.len() == 0 {
        Seq::empty()
    } else {
        ws[0] + concat_all(ws.drop_first())
    }
}

/// A reader that stays attached while all readers keep consuming receives
/// every written byte exactly once and in order, for any sequence of writes of
/// at most half the capacity each.
pub proof fn lemma_reader_receives_every_write(v: RingView, ws: Seq<Seq<u8>>, k: Seq<char>)
    requires
        ring_wf(v),
        v.readers.contains_key(k),
        all_caught_up(v),
        forall|i: int| 0 <= i < ws.len() ==> (#[trigger] ws[i]).len() <= v.max_size / 2,
    ensures
        delivered(v, ws, k) == Some(concat_all(ws)),
    decreases ws.len(),
{
    if ws.len() > 0 {
        assert(v.readers.dom().contains(k));
        vstd::set_lib::lemma_set_empty_equivalency_len(v.readers.dom());
        assert(ws[0].len() <= v.max_size / 2);
        lemma_write_reaches_caught_up_readers(v, ws[0]);
        let after = write_outcome(v, ws[0]).1;
        let next = catch_up_all(after);
        assert forall|i: int| 0 <= i < ws.drop_first().len() implies (#[trigger] ws.drop_first()[i]).len()
            <= next.max_size / 2 by {
            assert(ws.drop_first()[i] == ws[i + 1]);
        }
        lemma_reader_receives_every_write(next, ws.drop_first(), k);
    }
}

/// A byte buffer of bounded size read by any number of readers, each with
/// its own cursor.
pub struct OptimizedTerminalBuffer {
    storage: BytesMut,
    read_positions: PositionMap,
    stats: BufferStats,
    max_size: usize,
}

/// A reader's handle: its id, under which its cursor is kept in the buffer.
pub struct BufferReader {
    reader_id: String,
}

impl BufferReader {
    pub closed spec fn id(&self) -> Seq<char> {
        self.reader_id@
    }
}

impl OptimizedTerminalBuffer {
    pub closed spec fn view(&self) -> RingView {
        RingView {
            data: bytes_mut_view(self.storage),
            readers: position_map_view(self.read_positions),
            max_size: self.max_size,
        }
    }

    pub open spec fn wf(&self) -> bool {
        ring_wf(self.view())
    }

    /// Written bytes, read bytes, writes and overruns.
    pub closed spec fn counters(&self) -> (u64, u64, u64, u64) {
        (
            self.stats.bytes_written,
            self.stats.bytes_read,
            self.stats.messages_written,
            self.stats.overruns,
        )
    }

    pub closed spec fn bytes_written(&self) -> u64 {
        self.stats.bytes_written
    }

    pub closed spec fn bytes_read(&self) -> u64 {
        self.stats.bytes_read
    }

    pub closed spec fn messages_written(&self) -> u64 {
        self.stats.messages_written
    }

    pub closed spec fn overruns(&self) -> u64 {
        self.stats.overruns
    }

    /// An empty buffer of capacity `max_size` with no readers.
    pub fn new(max_size: usize) -> (r: Self)
        ensures
            r.wf(),
            r.view().data == Seq::<u8>::empty(),
            r.view().readers.dom() == Set::<Seq<char>>::empty(),
            r.view().max_size == max_size,
            r.bytes_written() == 0,
            r.bytes_read() == 0,
            r.messages_written() == 0,
            r.overruns() == 0,
    {
        let r = OptimizedTerminalBuffer {
            storage: bytes_with_capacity(max_size),
            read_positions: positions_new(),
            stats: BufferStats { bytes_written: 0, bytes_read: 0, messages_written: 0, overruns: 0 },
            max_size,
        };
        proof {
            assert(r.view().readers.dom().finite());
        }
        r
    }

    /// The smallest reader cursor, if any reader is attached.
    fn min_read_position(&self) -> (r: usize)
        requires
            self.wf(),
        ensures
            r == compaction_floor(self.view().readers),
    {
        let keys = positions_keys(&self.read_positions);
        if keys.len() == 0 {
            proof {
                assert(self.view().readers.dom() =~= Set::<Seq<char>>::empty());
                lemma_floor_of_empty(self.view().readers);
            }
            return 0;
        }
        let ghost readers = self.view().readers;
        let mut m: usize = match positions_get(&self.read_positions, keys[0].as_str()) {
            Some(v) => v,
            None => 0,
        };
        let ghost mut witness: Seq<char> = keys@[0]@;
        let mut i: usize = 1;
        while i < keys.len()
            invariant
                1 <= i <= keys@.len(),
                readers == position_map_view(self.read_positions),
                forall|j: int| 0 <= j < keys@.len() ==> readers.contains_key(#[trigger] keys@[j]@),
                readers.contains_key(witness),
                readers[witness] == m,
                forall|j: int| 0 <= j < i ==> m <= readers[#[trigger] keys@[j]@],
            decreases keys@.len() - i,
        {
            match positions_get(&self.read_positions, keys[i].as_str()) {
                Some(v) => {
                    if v < m {
                        m = v;
                        proof {
                            witness = keys@[i as int]@;
                        }
                    }
                },
                None => {},
            }
            i = i + 1;
        }
        proof {
            assert forall|k: Seq<char>| #[trigger] readers.contains_key(k) implies m <= readers[k] by {
                let j = choose|j: int| 0 <= j < keys@.len() && #[trigger] keys@[j]@ == k;
                assert(m <= readers[keys@[j]@]);
            }
            assert(is_min_offset(readers, m));
            lemma_floor_is_min(readers, m);
        }
        m
    }

    /// Discards the bytes every reader has consumed and shifts all cursors
    /// down by the same amount.
    fn compact_buffer(&mut self)
        requires
            old(self).wf(),
        ensures
            final(self).wf(),
            final(self).view() == compacted(old(self).view()),
            final(self).counters() == old(self).counters(),
    {
        proof {
            lemma_compaction_keeps_unread(self.view());
        }
        let m = self.min_read_position();
        if m > 0 {
            let ghost before = self.view();
            bytes_drop_front(&mut self.storage, m);
            let keys = positions_keys(&self.read_positions);
            let mut fresh = positions_new();
            let mut i: usize = 0;
            while i < keys.len()
                invariant
                    i <= keys@.len(),
                    before.readers == position_map_view(self.read_positions),
                    forall|j: int| 0 <= j < keys@.len() ==> before.readers.contains_key(#[trigger] keys@[j]@),
                    forall|k: Seq<char>| #[trigger] before.readers.contains_key(k) ==> m <= before.readers[k],
                    forall|k: Seq<char>|
                        #[trigger] position_map_view(fresh).contains_key(k) ==> before.readers.contains_key(k)
                            && position_map_view(fresh)[k] == before.readers[k] - m,
                    forall|j: int| 0 <= j < i ==> position_map_view(fresh).contains_key(#[trigger] keys@[j]@),
                decreases keys@.len() - i,
            {
                let k = keys[i].clone();
                match positions_get(&self.read_positions, keys[i].as_str()) {
                    Some(v) => {
                        positions_insert(&mut fresh, k, v - m);
                    },
                    None => {},
                }
                i = i + 1;
            }
            self.read_positions = fresh;
            proof {
                let c = compacted(before);
                assert forall|k: Seq<char>| #[trigger] before.readers.contains_key(k) implies position_map_view(
                    fresh,
                ).contains_key(k) by {
                    let j = choose|j: int| 0 <= j < keys@.len() && #[trigger] keys@[j]@ == k;
                    assert(position_map_view(fresh).contains_key(keys@[j]@));
                }
                assert(position_map_view(fresh).dom() =~= c.readers.dom());
                assert(position_map_view(fresh) =~= c.readers);
            }
        }
    }

    /// Appends `data` for every reader. A write larger than half the capacity
    /// is refused; one that does not fit is retried after compaction and, if
    /// it still does not fit, refused as full and counted as an overrun.
    pub fn write(&mut self, data: &[u8]) -> (r: Result<(), BufferError>)
        requires
            old(self).wf(),
        ensures
            final(self).wf(),
            r == write_outcome(old(self).view(), data@).0,
            final(self).view() == write_outcome(old(self).view(), data@).1,
            final(self).overruns() == if r == Err::<(), BufferError>(BufferError::BufferFull) {
                old(self).overruns().wrapping_add(1)
            } else {
                old(self).overruns()
            },
            final(self).bytes_written() == if r is Ok {
                old(self).bytes_written().wrapping_add(data@.len() as u64)
            } else {
                old(self).bytes_written()
            },
            final(self).messages_written() == if r is Ok {
                old(self).messages_written().wrapping_add(1)
            } else {
                old(self).messages_written()
            },
            final(self).bytes_read() == old(self).bytes_read(),
            final(self).view().readers.dom() == old(self).view().readers.dom(),
            forall|k: Seq<char>|
                #[trigger] old(self).view().readers.contains_key(k) ==> unread(final(self).view(), k)
                    == unread(old(self).view(), k) + (if r is Ok {
                    data@
                } else {
                    Seq::<u8>::empty()
                }),
    {
        proof {
            lemma_write_keeps_unread(self.view(), data@);
        }
        if data.len() > self.max_size / 2 {
            return Err(BufferError::DataTooLarge);
        }
        if data.len() > self.max_size - bytes_len(&self.storage) {
            self.compact_buffer();
        }
        proof {
            lemma_compaction_keeps_unread(old(self).view());
        }
        if data.len() > self.max_size - bytes_len(&self.storage) {
            self.stats.overruns = self.stats.overruns.wrapping_add(1);
            return Err(BufferError::BufferFull);
        }
        bytes_extend(&mut self.storage, data);
        self.stats.bytes_written = self.stats.bytes_written.wrapping_add(data.len() as u64);
        self.stats.messages_written = self.stats.messages_written.wrapping_add(1);
        Ok(())
    }

    /// Attaches a reader whose cursor starts at the current end, so it sees
    /// only bytes written from now on.
    pub fn create_reader(&mut self, reader_id: String) -> (r: BufferReader)
        requires
            old(self).wf(),
        ensures
            final(self).wf(),
            r.id() == reader_id@,
            final(self).view() == (RingView {
                readers: old(self).view().readers.insert(reader_id@, old(self).view().data.len() as usize),
                ..old(self).view()
            }),
            final(self).counters() == old(self).counters(),
    {
        let end = bytes_len(&self.storage);
        let key = reader_id.clone();
        positions_insert(&mut self.read_positions, key, end);
        BufferReader { reader_id }
    }

    /// Detaches a reader, so that its cursor no longer holds back compaction.
    pub fn remove_reader(&mut self, reader_id: &str)
        requires
            old(self).wf(),
        ensures
            final(self).wf(),
            final(self).view() == (RingView {
                readers: old(self).view().readers.remove(reader_id@),
                ..old(self).view()
            }),
            final(self).counters() == old(self).counters(),
    {
        positions_remove(&mut self.read_positions, reader_id);
    }

    /// Counters, current size and number of readers.
    pub fn stats(&self) -> (r: BufferStatsSnapshot)
        ensures
            r.bytes_written == self.bytes_written(),
            r.bytes_read == self.bytes_read(),
            r.messages_written == self.messages_written(),
            r.overruns == self.overruns(),
            r.buffer_size == self.view().data.len(),
            r.reader_count == self.view().readers.dom().len(),
    {
        BufferStatsSnapshot {
            bytes_written: self.stats.bytes_written,
            bytes_read: self.stats.bytes_read,
            messages_written: self.stats.messages_written,
            overruns: self.stats.overruns,
            buffer_size: bytes_len(&self.storage),
            reader_count: positions_len(&self.read_positions),
        }
    }
}

impl BufferReader {
    /// Without waiting: every byte this reader has not consumed yet, after
    /// which its cursor is at the end; `None` when there is nothing new or
    /// the reader is not attached.
    pub fn try_read_next(&self, buffer: &mut OptimizedTerminalBuffer) -> (r: Option<Vec<u8>>)
        requires
            old(buffer).wf(),
        ensures
            final(buffer).wf(),
            match r {
                Some(bytes) => read_outcome(old(buffer).view(), self.id()).0 == Some(bytes@),
                None => read_outcome(old(buffer).view(), self.id()).0 is None,
            },
            final(buffer).view() == read_outcome(old(buffer).view(), self.id()).1,
            final(buffer).bytes_read() == match r {
                Some(bytes) => old(buffer).bytes_read().wrapping_add(bytes@.len() as u64),
                None => old(buffer).bytes_read(),
            },
            final(buffer).bytes_written() == old(buffer).bytes_written(),
            final(buffer).messages_written() == old(buffer).messages_written(),
            final(buffer).overruns() == old(buffer).overruns(),
    {
        let end = bytes_len(&buffer.storage);
        let pos = match positions_get(&buffer.read_positions, self.reader_id.as_str()) {
            Some(p) => p,
            None => {
                return None;
            },
        };
        if pos >= end {
            return None;
        }
        let bytes = bytes_copy_range(&buffer.storage, pos, end);
        let key = self.reader_id.clone();
        positions_insert(&mut buffer.read_positions, key, end);
        buffer.stats.bytes_read = buffer.stats.bytes_read.wrapping_add(bytes.len() as u64);
        Some(bytes)
    }

    /// Detaches this reader from `buffer`.
    pub fn detach(self, buffer: &mut OptimizedTerminalBuffer)
        requires
            old(buffer).wf(),
        ensures
            final(buffer).wf(),
            final(buffer).view() == (RingView {
                readers: old(buffer).view().readers.remove(self.id()),
                ..old(buffer).view()
            }),
    {
        buffer.remove_reader(self.reader_id.as_str());
    }
}

} // verus!
