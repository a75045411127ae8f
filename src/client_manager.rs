//! Per-client delivery with backpressure: each client has a bounded number of
//! outstanding-message permits; a send with no permit left is dropped and
//! counted instead of queued. Consecutive terminal output for a client is
//! merged into larger frames.
use dashmap::DashMap;
use std::collections::VecDeque;
use tokio::sync::Semaphore;
use vstd::prelude::*;

use crate::protocol::MAX_MESSAGE_SIZE;

verus! {

broadcast use vstd::seq_lib::group_seq_properties;

/// Outstanding messages allowed per client before sends are dropped.
pub const BACKPRESSURE_THRESHOLD: usize = 256;

/// Most messages merged in one batching pass.
pub const MAX_BATCH_SIZE: usize = 32;

/// Batching window in milliseconds.
pub const BATCH_TIMEOUT_MS: u64 = 5;

/// A message on its way to a client.
pub enum OptimizedMessage {
    /// Serialized JSON text.
    Json(String),
    /// A binary frame.
    Binary(Vec<u8>),
    /// Raw terminal output.
    TerminalOutput(Vec<u8>),
}

pub enum MessageView {
    Json(Seq<char>),
    Binary(Seq<u8>),
    TerminalOutput(Seq<u8>),
}

impl View for OptimizedMessage {
    type V = MessageView;

    open spec fn view(&self) -> MessageView {
        match self {
            OptimizedMessage::Json(s) => MessageView::Json(s@),
            OptimizedMessage::Binary(b) => MessageView::Binary(b@),
            OptimizedMessage::TerminalOutput(b) => MessageView::TerminalOutput(b@),
        }
    }
}

pub open spec fn message_views(s: Seq<OptimizedMessage>) -> Seq<MessageView> {
    s.map_values(|m: OptimizedMessage| m@)
}

/// `buf` as one output message, or nothing when it is empty.
pub open spec fn flush_output(buf: Seq<u8>) -> Seq<MessageView> {
    if buf.len() > 0 {
        seq![MessageView::TerminalOutput(buf)]
    } else {
        seq![]
    }
}

/// `msgs` with runs of terminal output merged, given output `buf` gathered so
/// far: output is appended to the pending frame unless that would take it past
/// `MAX_MESSAGE_SIZE`, in which case the pending frame is sent first; any
/// other message sends the pending frame and then itself.
pub open spec fn combine_from(msgs: Seq<MessageView>, buf: Seq<u8>) -> Seq<MessageView>
    decreases msgs.len(),
{
    if msgs.len() == 0 {
        flush_output(buf)
    } else {
        match msgs[0] {
            MessageView::TerminalOutput(d) => if buf.len() + d.len() > MAX_MESSAGE_SIZE && buf.len() > 0 {
                seq![MessageView::TerminalOutput(buf)] + combine_from(msgs.drop_first(), d)
            } else {
                combine_from(msgs.drop_first(), buf + d)
            },
            other => flush_output(buf) + seq![other] + combine_from(msgs.drop_first(), seq![]),
        }
    }
}

/// Already-final messages of `combine_from(msgs, buf)`, without the pending
/// frame.
pub open spec fn combine_prefix(msgs: Seq<MessageView>, buf: Seq<u8>) -> Seq<MessageView>
    decreases msgs.len(),
{
    if msgs.len() == 0 {
        seq![]
    } else {
        match msgs[0] {
            MessageView::TerminalOutput(d) => if buf.len() + d.len() > MAX_MESSAGE_SIZE && buf.len() > 0 {
                seq![MessageView::TerminalOutput(buf)] + combine_prefix(msgs.drop_first(), d)
            } else {
                combine_prefix(msgs.drop_first(), buf + d)
            },
            other => flush_output(buf) + seq![other] + combine_prefix(msgs.drop_first(), seq![]),
        }
    }
}

/// The pending output frame after `msgs`.
pub open spec fn combine_pending(msgs: Seq<MessageView>, buf: Seq<u8>) -> Seq<u8>
    decreases msgs.len(),
{
    if msgs.len() == 0 {
        buf
    } else {
        match msgs[0] {
            MessageView::TerminalOutput(d) => if buf.len() + d.len() > MAX_MESSAGE_SIZE && buf.len() > 0 {
                combine_pending(msgs.drop_first(), d)
            } else {
                combine_pending(msgs.drop_first(), buf + d)
            },
            _ => combine_pending(msgs.drop_first(), seq![]),
        }
    }
}

proof fn lemma_combine_split(msgs: Seq<MessageView>, buf: Seq<u8>)
    ensures
        combine_from(msgs, buf) == combine_prefix(msgs, buf) + flush_output(combine_pending(msgs, buf)),
    decreases msgs.len(),
{
    if msgs.len() == 0 {
        assert(combine_prefix(msgs, buf) + flush_output(buf) =~= flush_output(buf));
    } else {
        let rest = msgs.drop_first();
        match msgs[0] {
            MessageView::TerminalOutput(d) => {
                if buf.len() + d.len() > MAX_MESSAGE_SIZE && buf.len() > 0 {
                    lemma_combine_split(rest, d);
                    let p = combine_prefix(rest, d);
                    let q = flush_output(combine_pending(rest, d));
                    assert(seq![MessageView::TerminalOutput(buf)] + (p + q) =~= (seq![
                        MessageView::TerminalOutput(buf),
                    ] + p) + q);
                } else {
                    lemma_combine_split(rest, buf + d);
                }
            },
            other => {
                lemma_combine_split(rest, seq![]);
                let p = combine_prefix(rest, seq![]);
                let q = flush_output(combine_pending(rest, seq![]));
                assert(flush_output(buf) + seq![other] + (p + q) =~= (flush_output(buf) + seq![other]
                    + p) + q);
            },
        }
    }
}

proof fn lemma_combine_snoc(msgs: Seq<MessageView>, buf: Seq<u8>, m: MessageView)
    ensures
        combine_prefix(msgs.push(m), buf) == match m {
            MessageView::TerminalOutput(d) => if combine_pending(msgs, buf).len() + d.len()
                > MAX_MESSAGE_SIZE && combine_pending(msgs, buf).len() > 0 {
                combine_prefix(msgs, buf) + seq![MessageView::TerminalOutput(combine_pending(msgs, buf))]
            } else {
                combine_prefix(msgs, buf)
            },
            other => combine_prefix(msgs, buf) + flush_output(combine_pending(msgs, buf)) + seq![other],
        },
        combine_pending(msgs.push(m), buf) == match m {
            MessageView::TerminalOutput(d) => if combine_pending(msgs, buf).len() + d.len()
                > MAX_MESSAGE_SIZE && combine_pending(msgs, buf).len() > 0 {
                d
            } else {
                combine_pending(msgs, buf) + d
            },
            _ => Seq::<u8>::empty(),
        },
    decreases msgs.len(),
{
    if msgs.len() == 0 {
        assert(msgs.push(m).drop_first() =~= Seq::<MessageView>::empty());
        assert(msgs.push(m)[0] == m);
        reveal_with_fuel(combine_prefix, 2);
        reveal_with_fuel(combine_pending, 2);
        match m {
            MessageView::TerminalOutput(d) => {
                if buf.len() + d.len() > MAX_MESSAGE_SIZE && buf.len() > 0 {
                    assert(seq![MessageView::TerminalOutput(buf)] + Seq::<MessageView>::empty() =~= Seq::<
                        MessageView,
                    >::empty() + seq![MessageView::TerminalOutput(buf)]);
                }
            },
            _ => {
                assert(flush_output(buf) + seq![m] + Seq::<MessageView>::empty() =~= Seq::<
                    MessageView,
                >::empty() + flush_output(buf) + seq![m]);
            },
        }
    } else {
        let rest = msgs.drop_first();
        assert(msgs.push(m).drop_first() =~= rest.push(m));
        assert(msgs.push(m)[0] == msgs[0]);
        match msgs[0] {
            MessageView::TerminalOutput(d0) => {
                let nb = if buf.len() + d0.len() > MAX_MESSAGE_SIZE && buf.len() > 0 {
                    d0
                } else {
                    buf + d0
                };
                lemma_combine_snoc(rest, nb, m);
                if buf.len() + d0.len() > MAX_MESSAGE_SIZE && buf.len() > 0 {
                    let head = seq![MessageView::TerminalOutput(buf)];
                    let p = combine_prefix(rest, nb);
                    let pend = combine_pending(rest, nb);
                    match m {
                        MessageView::TerminalOutput(d) => {
                            assert(head + (p + seq![MessageView::TerminalOutput(pend)]) =~= (head + p)
                                + seq![MessageView::TerminalOutput(pend)]);
                        },
                        _ => {
                            assert(head + (p + flush_output(pend) + seq![m]) =~= (head + p)
                                + flush_output(pend) + seq![m]);
                        },
                    }
                }
            },
            other => {
                lemma_combine_snoc(rest, seq![], m);
                let head = flush_output(buf) + seq![other];
                let p = combine_prefix(rest, seq![]);
                let pend = combine_pending(rest, seq![]);
                match m {
                    MessageView::TerminalOutput(d) => {
                        assert(head + (p + seq![MessageView::TerminalOutput(pend)]) =~= (head + p)
                            + seq![MessageView::TerminalOutput(pend)]);
                    },
                    _ => {
                        assert(head + (p + flush_output(pend) + seq![m]) =~= (head + p) + flush_output(
                            pend,
                        ) + seq![m]);
                    },
                }
            },
        }
    }
}

fn copy_bytes(b: &Vec<u8>) -> (r: Vec<u8>)
    ensures
        r@ == b@,
{
    let mut out: Vec<u8> = Vec::new();
    out.extend_from_slice(b.as_slice());
    assert(out@ =~= b@);
    out
}

impl OptimizedMessage {
    /// A copy of this message.
    pub fn duplicate(&self) -> (r: Self)
        ensures
            r@ == self@,
    {
        match self {
            OptimizedMessage::Json(s) => OptimizedMessage::Json(s.clone()),
            OptimizedMessage::Binary(b) => OptimizedMessage::Binary(copy_bytes(b)),
            OptimizedMessage::TerminalOutput(b) => OptimizedMessage::TerminalOutput(copy_bytes(b)),
        }
    }
}

/// Merges consecutive terminal output into frames of at most
/// `MAX_MESSAGE_SIZE` bytes (a single larger output stays whole), keeping all
/// other messages in place and everything in order.
pub fn combine_terminal_outputs(messages: &Vec<OptimizedMessage>) -> (r: Vec<OptimizedMessage>)
    ensures
        message_views(r@) == combine_from(message_views(messages@), seq![]),
{
    let ghost all = message_views(messages@);
    let mut result: Vec<OptimizedMessage> = Vec::new();
    let mut buf: Vec<u8> = Vec::new();
    let mut i: usize = 0;
    while i < messages.len()
        invariant
            i <= messages@.len(),
            all == message_views(messages@),
            message_views(result@) == combine_prefix(all.subrange(0, i as int), seq![]),
            buf@ == combine_pending(all.subrange(0, i as int), seq![]),
        decreases messages@.len() - i,
    {
        proof {
            assert(all.subrange(0, i + 1) =~= all.subrange(0, i as int).push(all[i as int]));
            lemma_combine_snoc(all.subrange(0, i as int), seq![], all[i as int]);
        }
        match &messages[i] {
            OptimizedMessage::TerminalOutput(d) => {
                if d.len() > MAX_MESSAGE_SIZE || buf.len() > MAX_MESSAGE_SIZE - d.len() {
                    if buf.len() > 0 {
                        let mut full: Vec<u8> = Vec::new();
                        std::mem::swap(&mut full, &mut buf);
                        proof {
                            assert(message_views(result@.push(OptimizedMessage::TerminalOutput(full)))
                                =~= message_views(result@).push(MessageView::TerminalOutput(full@)));
                        }
                        result.push(OptimizedMessage::TerminalOutput(full));
                    }
                }
                buf.extend_from_slice(d.as_slice());
            },
            other => {
                if buf.len() > 0 {
                    let mut full: Vec<u8> = Vec::new();
                    std::mem::swap(&mut full, &mut buf);
                    proof {
                        assert(message_views(result@.push(OptimizedMessage::TerminalOutput(full)))
                            =~= message_views(result@) + flush_output(full@));
                    }
                    result.push(OptimizedMessage::TerminalOutput(full));
                } else {
                    proof {
                        assert(message_views(result@) + flush_output(buf@) =~= message_views(result@));
                    }
                }
                let m = other.duplicate();
                proof {
                    assert(message_views(result@.push(m)) =~= message_views(result@).push(m@));
                }
                result.push(m);
            },
        }
        i = i + 1;
    }
    proof {
        assert(all.subrange(0, messages@.len() as int) =~= all);
        lemma_combine_split(all, seq![]);
    }
    if buf.len() > 0 {
        proof {
            assert(message_views(result@.push(OptimizedMessage::TerminalOutput(buf))) =~= message_views(
                result@,
            ) + flush_output(buf@));
        }
        result.push(OptimizedMessage::TerminalOutput(buf));
    } else {
        proof {
            assert(message_views(result@) + flush_output(buf@) =~= message_views(result@));
        }
    }
    result
}

#[verifier::external_type_specification]
#[verifier::external_body]
pub struct ExSemaphore(Semaphore);

/// The permits a semaphore has available, as `available_permits` reports.
pub uninterp spec fn semaphore_permits(s: Semaphore) -> nat;

/// No task is queued waiting for a permit of the semaphore (so permits added
/// become available rather than going to a waiter).
pub uninterp spec fn semaphore_unawaited(s: Semaphore) -> bool;

/// Largest permit count the wrappers below admit; within
/// `Semaphore::MAX_PERMITS` (`usize::MAX >> 3`) on every target.
pub const PERMIT_LIMIT: usize = 0x1FFF_FFFF;

/// Relies on `Semaphore::new`: a semaphore with `n` permits and no waiter;
/// more than `Semaphore::MAX_PERMITS` panics.
#[verifier::external_body]
fn semaphore_new(n: usize) -> (r: Semaphore)
    requires
        n <= PERMIT_LIMIT,
    ensures
        semaphore_permits(r) == n,
        semaphore_unawaited(r),
{
    Semaphore::new(n)
}

/// Relies on `Semaphore::available_permits`.
#[verifier::external_body]
fn semaphore_available(s: &Semaphore) -> (r: usize)
    ensures
        r == semaphore_permits(*s),
{
    s.available_permits()
}

/// Relies on `Semaphore::forget_permits`: takes away at most one permit,
/// returning how many were taken; waiters are not touched.
#[verifier::external_body]
fn semaphore_take_one(s: &mut Semaphore) -> (r: usize)
    ensures
        r == (if semaphore_permits(*old(s)) > 0 {
            1usize
        } else {
            0usize
        }),
        semaphore_permits(*final(s)) == semaphore_permits(*old(s)) - r,
        semaphore_unawaited(*final(s)) == semaphore_unawaited(*old(s)),
{
    s.forget_permits(1)
}

/// Relies on `Semaphore::add_permits`: with no waiter, the permit becomes
/// available; exceeding `Semaphore::MAX_PERMITS` panics.
#[verifier::external_body]
fn semaphore_give_one(s: &mut Semaphore)
    requires
        semaphore_unawaited(*old(s)),
        semaphore_permits(*old(s)) < PERMIT_LIMIT,
    ensures
        semaphore_permits(*final(s)) == semaphore_permits(*old(s)) + 1,
        semaphore_unawaited(*final(s)),
{
    s.add_permits(1)
}


/// A queued message for a client: the client's id and the message.
pub open spec fn entry_views(s: Seq<(String, OptimizedMessage)>) -> Seq<(Seq<char>, MessageView)> {
    s.map_values(|e: (String, OptimizedMessage)| (e.0@, e.1@))
}

/// The client ids of `s`, each once, in order of first appearance.
pub open spec fn ids_in_order(s: Seq<(Seq<char>, MessageView)>) -> Seq<Seq<char>>
    decreases s.len(),
{
    if s.len() == 0 {
        seq![]
    } else {
        let ids = ids_in_order(s.drop_last());
        if ids.contains(s.last().0) {
            ids
        } else {
            ids.push(s.last().0)
        }
    }
}

/// The messages of `s` for client `id`, in order.
pub open spec fn messages_for(s: Seq<(Seq<char>, MessageView)>, id: Seq<char>) -> Seq<MessageView>
    decreases s.len(),
{
    if s.len() == 0 {
        seq![]
    } else if s.last().0 == id {
        messages_for(s.drop_last(), id).push(s.last().1)
    } else {
        messages_for(s.drop_last(), id)
    }
}

proof fn lemma_ids_unique(s: Seq<(Seq<char>, MessageView)>)
    ensures
        ids_in_order(s).no_duplicates(),
    decreases s.len(),
{
    if s.len() > 0 {
        lemma_ids_unique(s.drop_last());
    }
}

proof fn lemma_absent_id_has_no_messages(s: Seq<(Seq<char>, MessageView)>, id: Seq<char>)
    requires
        !ids_in_order(s).contains(id),
    ensures
        messages_for(s, id) == Seq::<MessageView>::empty(),
    decreases s.len(),
{
    if s.len() > 0 {
        let ids = ids_in_order(s.drop_last());
        if ids.contains(id) {
            let k = choose|k: int| 0 <= k < ids.len() && ids[k] == id;
            assert(ids_in_order(s).contains(id)) by {
                if !ids.contains(s.last().0) {
                    assert(ids.push(s.last().0)[k] == id);
                }
            }
        }
        if s.last().0 == id {
            assert(ids_in_order(s).contains(id)) by {
                if !ids.contains(s.last().0) {
                    assert(ids.push(s.last().0)[ids.len() as int] == id);
                }
            }
        }
        lemma_absent_id_has_no_messages(s.drop_last(), id);
    }
}

/// How many of `len` queued messages one batching pass takes.
pub open spec fn batch_len(len: nat) -> int {
    if len < MAX_BATCH_SIZE {
        len as int
    } else {
        MAX_BATCH_SIZE as int
    }
}

/// The messages one batching pass takes from `q`.
pub open spec fn batch_taken(q: Seq<(String, OptimizedMessage)>) -> Seq<(Seq<char>, MessageView)> {
    entry_views(q.subrange(0, batch_len(q.len())))
}

/// One batching pass over the shared outbound queue: takes at most
/// `MAX_BATCH_SIZE` messages from the front (the rest stays queued in
/// order), groups them by client (each client once, in order of its first
/// message), and merges each client's terminal output as
/// `combine_terminal_outputs` does.
pub fn group_batch(queue: &mut VecDeque<(String, OptimizedMessage)>) -> (r: Vec<(String, Vec<OptimizedMessage>)>)
    ensures
        final(queue)@ == old(queue)@.subrange(batch_len(old(queue)@.len()), old(queue)@.len() as int),
        r@.len() == ids_in_order(batch_taken(old(queue)@)).len(),
        forall|j: int|
            0 <= j < r@.len() ==> (#[trigger] r@[j]).0@ == ids_in_order(batch_taken(old(queue)@))[j],
        forall|j: int|
            0 <= j < r@.len() ==> message_views((#[trigger] r@[j]).1@) == combine_from(
                messages_for(batch_taken(old(queue)@), ids_in_order(batch_taken(old(queue)@))[j]),
                seq![],
            ),
        ids_in_order(batch_taken(old(queue)@)).no_duplicates(),
{
    let ghost q0 = queue@;
    assert(q0 == old(queue)@);
    let ghost n = if q0.len() < MAX_BATCH_SIZE {
        q0.len() as int
    } else {
        MAX_BATCH_SIZE as int
    };
    let mut ids: Vec<String> = Vec::new();
    let mut groups: Vec<Vec<OptimizedMessage>> = Vec::new();
    let mut i: usize = 0;
    while i < MAX_BATCH_SIZE && queue.len() > 0
        invariant
            i <= MAX_BATCH_SIZE,
            i <= q0.len(),
            n == (if q0.len() < MAX_BATCH_SIZE {
                q0.len() as int
            } else {
                MAX_BATCH_SIZE as int
            }),
            queue@ == q0.subrange(i as int, q0.len() as int),
            ids@.len() == groups@.len(),
            ids@.len() == ids_in_order(entry_views(q0.subrange(0, i as int))).len(),
            forall|j: int|
                0 <= j < ids@.len() ==> #[trigger] ids@[j]@ == ids_in_order(
                    entry_views(q0.subrange(0, i as int)),
                )[j],
            forall|j: int|
                0 <= j < groups@.len() ==> #[trigger] message_views(groups@[j]@) == messages_for(
                    entry_views(q0.subrange(0, i as int)),
                    ids@[j]@,
                ),
        decreases q0.len() - i,
    {
        let ghost p = entry_views(q0.subrange(0, i as int));
        let ghost p1 = entry_views(q0.subrange(0, i + 1));
        proof {
            assert(p1 =~= p.push((q0[i as int].0@, q0[i as int].1@)));
            assert(p1.drop_last() =~= p);
            lemma_ids_unique(p);
        }
        let (id, msg) = queue.pop_front().unwrap();
        proof {
            assert(queue@ =~= q0.subrange(i + 1, q0.len() as int));
        }
        let ghost ev = (id@, msg@);
        let mut found: usize = ids.len();
        let mut k: usize = 0;
        while k < ids.len()
            invariant_except_break
                k <= ids@.len(),
                found == ids@.len(),
                forall|j: int| 0 <= j < k ==> #[trigger] ids@[j]@ != id@,
            ensures
                found <= ids@.len(),
                found < ids@.len() ==> ids@[found as int]@ == id@,
                found == ids@.len() ==> forall|j: int| 0 <= j < ids@.len() ==> #[trigger] ids@[j]@ != id@,
            decreases ids@.len() - k,
        {
            if ids[k] == id {
                found = k;
                break ;
            }
            k = k + 1;
        }
        let ghost ids_p = ids_in_order(p);
        if found < ids.len() {
            let ghost old_g = groups@[found as int];
            let ghost gs0 = groups@;
            let mut g: Vec<OptimizedMessage> = Vec::new();
            groups.set_and_swap(found, &mut g);
            g.push(msg);
            let ghost pushed = g;
            groups.set_and_swap(found, &mut g);
            proof {
                assert(groups@[found as int] == pushed);
                assert(message_views(pushed@) =~= message_views(old_g@).push(ev.1));
                assert(p1.last() == ev);
                assert(ids_p.contains(id@)) by {
                    assert(ids_p[found as int] == id@);
                }
                assert(ids_in_order(p1) == ids_p);
                assert forall|j: int| 0 <= j < groups@.len() implies #[trigger] message_views(
                    groups@[j]@,
                ) == messages_for(p1, ids@[j]@) by {
                    if j == found {
                        assert(message_views(groups@[j]@) == messages_for(p, id@).push(ev.1));
                    } else {
                        assert(groups@[j] == gs0[j]);
                        assert(ids_p[j] != ids_p[found as int]);
                    }
                }
            }
        } else {
            proof {
                assert(!ids_p.contains(id@)) by {
                    if ids_p.contains(id@) {
                        let j = choose|j: int| 0 <= j < ids_p.len() && ids_p[j] == id@;
                        assert(ids@[j]@ == ids_p[j]);
                        assert(ids@[j]@ != id@);
                    }
                }
                lemma_absent_id_has_no_messages(p, id@);
                assert(ids_in_order(p1) == ids_p.push(id@));
            }
            let mut g: Vec<OptimizedMessage> = Vec::new();
            g.push(msg);
            proof {
                assert(message_views(g@) =~= messages_for(p, id@).push(ev.1));
            }
            ids.push(id);
            groups.push(g);
            proof {
                assert forall|j: int| 0 <= j < groups@.len() implies #[trigger] message_views(
                    groups@[j]@,
                ) == messages_for(p1, ids@[j]@) by {
                    if j < groups@.len() - 1 {
                        assert(ids_p[j] != id@);
                    }
                }
            }
        }
        i = i + 1;
    }
    let ghost taken = entry_views(q0.subrange(0, n));
    assert(i == n);
    let mut out: Vec<(String, Vec<OptimizedMessage>)> = Vec::new();
    let mut j: usize = 0;
    while j < groups.len()
        invariant
            j <= groups@.len(),
            i == n,
            i <= q0.len(),
            q0 == old(queue)@,
            queue@ == q0.subrange(n, q0.len() as int),
            ids@.len() == groups@.len(),
            ids@.len() == ids_in_order(taken).len(),
            taken == entry_views(q0.subrange(0, i as int)),
            forall|t: int| 0 <= t < ids@.len() ==> #[trigger] ids@[t]@ == ids_in_order(taken)[t],
            forall|t: int|
                0 <= t < groups@.len() ==> #[trigger] message_views(groups@[t]@) == messages_for(
                    taken,
                    ids@[t]@,
                ),
            out@.len() == j,
            forall|t: int|
                0 <= t < j ==> #[trigger] out@[t].0@ == ids_in_order(taken)[t] && message_views(
                    out@[t].1@,
                ) == combine_from(messages_for(taken, ids_in_order(taken)[t]), seq![]),
        decreases groups@.len() - j,
    {
        let merged = combine_terminal_outputs(&groups[j]);
        let key = ids[j].clone();
        let ghost before = out@;
        let entry = (key, merged);
        let ghost e = entry;
        proof {
            assert(e.0@ == ids@[j as int]@);
            assert(message_views(e.1@) == combine_from(message_views(groups@[j as int]@), seq![]));
        }
        out.push(entry);
        assert(out@[j as int] == e);
        proof {
            assert forall|t: int| 0 <= t < j + 1 implies #[trigger] out@[t].0@ == ids_in_order(taken)[t]
                && message_views(out@[t].1@) == combine_from(
                messages_for(taken, ids_in_order(taken)[t]),
                seq![],
            ) by {
                if t < j {
                    assert(out@[t] == before[t]);
                } else {
                    assert(out@[t] == e);
                    assert(message_views(groups@[t]@) == messages_for(taken, ids@[t]@));
                }
            }
        }
        j = j + 1;
    }
    proof {
        lemma_ids_unique(taken);
        assert(taken == entry_views(old(queue)@.subrange(0, n)));
        assert(batch_len(old(queue)@.len()) == n);
        assert(batch_taken(old(queue)@) == taken);
        assert(ids_in_order(taken).no_duplicates());
        assert forall|t: int| 0 <= t < out@.len() implies (#[trigger] out@[t]).0@ == ids_in_order(
            batch_taken(old(queue)@),
        )[t] && message_views(out@[t].1@) == combine_from(
            messages_for(batch_taken(old(queue)@), ids_in_order(batch_taken(old(queue)@))[t]),
            seq![],
        ) by {
            assert(out@[t].0@ == ids_in_order(taken)[t]);
        }
    }
    out
}

/// A client's delivery state: a semaphore counting the messages it may
/// still have outstanding.
pub struct ClientConnection {
    id: String,
    permits: Semaphore,
    binary_mode: bool,
    compression_enabled: bool,
}

pub struct ConnectionView {
    /// Messages that may still be outstanding before sends are dropped.
    pub permits: nat,
    pub binary_mode: bool,
    /// No task waits on the permits.
    pub unawaited: bool,
}

impl ClientConnection {
    pub closed spec fn view(&self) -> ConnectionView {
        ConnectionView {
            permits: semaphore_permits(self.permits),
            binary_mode: self.binary_mode,
            unawaited: semaphore_unawaited(self.permits),
        }
    }
}

/// Counters of the client manager.
pub struct PerformanceStats {
    pub messages_sent: u64,
    pub messages_batched: u64,
    pub bytes_sent: u64,
    pub backpressure_events: u64,
    pub active_sessions: usize,
    pub active_clients: usize,
}

/// What to do with a message for one client.
#[derive(Debug, Clone, Copy, PartialEq, Eq, Structural)]
pub enum SendDecision {
    /// Send it; the client holds one more outstanding message.
    Deliver,
    /// No permit left: the message is dropped and counted.
    Dropped,
    /// No such client.
    UnknownClient,
}

/// Clients keyed by id.
pub type ClientMap = DashMap<String, ClientConnection>;

/// The clients held per id.
pub uninterp spec fn client_map_view(m: ClientMap) -> Map<Seq<char>, ConnectionView>;

/// Relies on `DashMap::new`: the map starts empty.
#[verifier::external_body]
fn clients_new() -> (r: ClientMap)
    ensures
        client_map_view(r).dom() == Set::<Seq<char>>::empty(),
{
    DashMap::new()
}

/// Relies on `DashMap::insert`: the key now maps to the value.
#[verifier::external_body]
fn clients_insert(m: &mut ClientMap, k: String, v: ClientConnection)
    ensures
        client_map_view(*final(m)) == client_map_view(*old(m)).insert(k@, v.view()),
{
    m.insert(k, v);
}

/// Relies on `DashMap::remove`: the entry for the key is taken out and its
/// value returned, if there was one.
#[verifier::external_body]
fn clients_take(m: &mut ClientMap, k: &str) -> (r: Option<ClientConnection>)
    ensures
        client_map_view(*final(m)) == client_map_view(*old(m)).remove(k@),
        r is Some == client_map_view(*old(m)).contains_key(k@),
        r matches Some(c) ==> c.view() == client_map_view(*old(m))[k@],
{
    m.remove(k).map(|e| e.1)
}

/// The decision for a send to `id` and the clients afterwards.
pub open spec fn send_spec(m: Map<Seq<char>, ConnectionView>, id: Seq<char>) -> (SendDecision, Map<
    Seq<char>,
    ConnectionView,
>) {
    if !m.contains_key(id) {
        (SendDecision::UnknownClient, m)
    } else if m[id].permits == 0 {
        (SendDecision::Dropped, m)
    } else {
        (
            SendDecision::Deliver,
            m.insert(id, ConnectionView { permits: (m[id].permits - 1) as nat, ..m[id] }),
        )
    }
}

/// Tracks connected clients, their permits and delivery counters.
pub struct OptimizedClientManager {
    clients: ClientMap,
    stats: PerformanceStats,
}

impl OptimizedClientManager {
    pub closed spec fn clients(&self) -> Map<Seq<char>, ConnectionView> {
        client_map_view(self.clients)
    }

    /// Every client's permits are within the threshold and awaited by no task.
    pub closed spec fn wf(&self) -> bool {
        forall|k: Seq<char>| #[trigger] self.clients().contains_key(k) ==> self.clients()[k].unawaited
            && self.clients()[k].permits <= BACKPRESSURE_THRESHOLD
    }

    pub closed spec fn backpressure_events(&self) -> u64 {
        self.stats.backpressure_events
    }

    pub closed spec fn active_clients(&self) -> usize {
        self.stats.active_clients
    }

    pub fn new() -> (r: Self)
        ensures
            r.wf(),
            r.clients().dom() == Set::<Seq<char>>::empty(),
            r.backpressure_events() == 0,
            r.active_clients() == 0,
    {
        OptimizedClientManager {
            clients: clients_new(),
            stats: PerformanceStats {
                messages_sent: 0,
                messages_batched: 0,
                bytes_sent: 0,
                backpressure_events: 0,
                active_sessions: 0,
                active_clients: 0,
            },
        }
    }

    /// Registers a client with a full set of permits.
    pub fn add_client(&mut self, client_id: String, binary_mode: bool)
        requires
            old(self).wf(),
        ensures
            final(self).wf(),
            final(self).clients() == old(self).clients().insert(
                client_id@,
                ConnectionView { permits: BACKPRESSURE_THRESHOLD as nat, binary_mode, unawaited: true },
            ),
            final(self).active_clients() == if old(self).active_clients() < usize::MAX {
                (old(self).active_clients() + 1) as usize
            } else {
                old(self).active_clients()
            },
            final(self).backpressure_events() == old(self).backpressure_events(),
    {
        let conn = ClientConnection {
            id: client_id.clone(),
            permits: semaphore_new(BACKPRESSURE_THRESHOLD),
            binary_mode,
            compression_enabled: false,
        };
        let ghost id = client_id@;
        clients_insert(&mut self.clients, client_id, conn);
        self.stats.active_clients = self.stats.active_clients.saturating_add(1);
        proof {
            assert forall|k: Seq<char>| #[trigger] self.clients().contains_key(k) implies self.clients()[k].unawaited
                && self.clients()[k].permits <= BACKPRESSURE_THRESHOLD by {
                if k != id {
                    assert(old(self).clients().contains_key(k));
                }
            }
        }
    }

    /// Forgets a client.
    pub fn remove_client(&mut self, client_id: &str)
        requires
            old(self).wf(),
        ensures
            final(self).wf(),
            final(self).clients() == old(self).clients().remove(client_id@),
            final(self).active_clients() == if old(self).active_clients() > 0 {
                (old(self).active_clients() - 1) as usize
            } else {
                0
            },
            final(self).backpressure_events() == old(self).backpressure_events(),
    {
        let _ = clients_take(&mut self.clients, client_id);
        self.stats.active_clients = self.stats.active_clients.saturating_sub(1);
        proof {
            assert forall|k: Seq<char>| #[trigger] self.clients().contains_key(k) implies self.clients()[k].unawaited
                && self.clients()[k].permits <= BACKPRESSURE_THRESHOLD by {
                assert(old(self).clients().contains_key(k));
            }
        }
    }

    /// Decides a send to `client_id` without blocking: with a permit left the
    /// message goes out and holds one permit; with none it is dropped and a
    /// backpressure event is counted.
    pub fn send_to_client(&mut self, client_id: &str) -> (r: SendDecision)
        requires
            old(self).wf(),
        ensures
            final(self).wf(),
            (r, final(self).clients()) == send_spec(old(self).clients(), client_id@),
            final(self).backpressure_events() == if r == SendDecision::Dropped {
                old(self).backpressure_events().wrapping_add(1)
            } else {
                old(self).backpressure_events()
            },
            final(self).active_clients() == old(self).active_clients(),
    {
        match clients_take(&mut self.clients, client_id) {
            None => {
                proof {
                    assert(old(self).clients().remove(client_id@) =~= old(self).clients());
                }
                SendDecision::UnknownClient
            },
            Some(mut conn) => {
                let decision = if semaphore_available(&conn.permits) == 0 {
                    self.stats.backpressure_events = self.stats.backpressure_events.wrapping_add(1);
                    SendDecision::Dropped
                } else {
                    let _ = semaphore_take_one(&mut conn.permits);
                    SendDecision::Deliver
                };
                let key = client_id.to_owned();
                clients_insert(&mut self.clients, key, conn);
                proof {
                    assert(old(self).clients().remove(client_id@).insert(client_id@, conn.view()) =~= old(
                        self,
                    ).clients().insert(client_id@, conn.view()));
                    if decision == SendDecision::Dropped {
                        assert(old(self).clients().insert(client_id@, conn.view()) =~= old(
                            self,
                        ).clients());
                    }
                }
                decision
            },
        }
    }

    /// A message for `client_id` has left its queue: one permit comes back
    /// (never more than `BACKPRESSURE_THRESHOLD`).
    pub fn release_permit(&mut self, client_id: &str)
        requires
            old(self).wf(),
        ensures
            final(self).wf(),
            !old(self).clients().contains_key(client_id@) ==> final(self).clients() == old(self).clients(),
            old(self).clients().contains_key(client_id@) ==> final(self).clients() == old(self).clients().insert(
                client_id@,
                ConnectionView {
                    permits: if old(self).clients()[client_id@].permits < BACKPRESSURE_THRESHOLD {
                        (old(self).clients()[client_id@].permits + 1) as nat
                    } else {
                        old(self).clients()[client_id@].permits
                    },
                    ..old(self).clients()[client_id@]
                },
            ),
            final(self).backpressure_events() == old(self).backpressure_events(),
            final(self).active_clients() == old(self).active_clients(),
    {
        match clients_take(&mut self.clients, client_id) {
            None => {
                proof {
                    assert(old(self).clients().remove(client_id@) =~= old(self).clients());
                }
            },
            Some(mut conn) => {
                proof {
                    assert(old(self).clients().contains_key(client_id@));
                }
                if semaphore_available(&conn.permits) < BACKPRESSURE_THRESHOLD {
                    semaphore_give_one(&mut conn.permits);
                }
                let key = client_id.to_owned();
                clients_insert(&mut self.clients, key, conn);
                proof {
                    assert(old(self).clients().remove(client_id@).insert(client_id@, conn.view()) =~= old(
                        self,
                    ).clients().insert(client_id@, conn.view()));
                }
            },
        }
    }

    /// Counts a message handed to a client's channel.
    pub fn record_sent(&mut self, bytes: usize)
        requires
            old(self).wf(),
        ensures
            final(self).wf(),
            final(self).clients() == old(self).clients(),
            final(self).backpressure_events() == old(self).backpressure_events(),
            final(self).active_clients() == old(self).active_clients(),
    {
        self.stats.messages_sent = self.stats.messages_sent.wrapping_add(1);
        self.stats.bytes_sent = self.stats.bytes_sent.wrapping_add(bytes as u64);
        proof {
            assert forall|k: Seq<char>| #[trigger] self.clients().contains_key(k) implies self.clients()[k].unawaited
                && self.clients()[k].permits <= BACKPRESSURE_THRESHOLD by {
                assert(old(self).clients().contains_key(k));
            }
        }
    }
}

/// Once a client has no permit left, every further send to it is dropped and
/// counted, and its state stays as it is: nothing queues up and the sender
/// never waits.
pub proof fn lemma_exhausted_client_drops(m: Map<Seq<char>, ConnectionView>, id: Seq<char>)
    requires
        m.contains_key(id),
        m[id].permits == 0,
    ensures
        send_spec(m, id) == (SendDecision::Dropped, m),
{
}

/// A client starting with `BACKPRESSURE_THRESHOLD` permits can have at most
/// that many messages delivered before a release; the next send is dropped.
pub proof fn lemma_permits_bound_outstanding(m: Map<Seq<char>, ConnectionView>, id: Seq<char>)
    requires
        m.contains_key(id),
    ensures
        sends_after(m, id, m[id].permits as nat).contains_key(id),
        sends_after(m, id, m[id].permits as nat)[id].permits == 0,
        send_spec(sends_after(m, id, m[id].permits as nat), id).0 == SendDecision::Dropped,
    decreases m[id].permits,
{
    if m[id].permits > 0 {
        let m1 = send_spec(m, id).1;
        assert(m1[id].permits == m[id].permits - 1);
        lemma_permits_bound_outstanding(m1, id);
        lemma_sends_after_step(m, id, (m[id].permits - 1) as nat);
    }
}

/// The clients after `k` sends to `id` with no release in between.
pub open spec fn sends_after(m: Map<Seq<char>, ConnectionView>, id: Seq<char>, k: nat) -> Map<
    Seq<char>,
    ConnectionView,
>
    decreases k,
{
    if k == 0 {
        m
    } else {
        sends_after(send_spec(m, id).1, id, (k - 1) as nat)
    }
}

proof fn lemma_sends_after_step(m: Map<Seq<char>, ConnectionView>, id: Seq<char>, k: nat)
    ensures
        sends_after(m, id, k + 1) == sends_after(send_spec(m, id).1, id, k),
{
}

} // verus!
