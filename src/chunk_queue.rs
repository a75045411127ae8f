//! Sequence-numbered chunks in a bounded queue: writers never block (the
//! oldest chunk is evicted when the queue is full) and a reader accepts only
//! the chunk that follows the last one it took.
use crossbeam::queue::ArrayQueue;
use vstd::prelude::*;

verus! {

broadcast use vstd::seq_lib::group_seq_properties;

/// Largest chunk accepted by a single write.
pub const MAX_CHUNK_SIZE: usize = 65536;

/// Number of chunk slots in the queue.
pub const CHUNK_SLOTS: usize = 1024;

/// A written chunk and its sequence number.
pub struct TerminalChunk {
    pub sequence: u64,
    pub data: Vec<u8>,
}

impl View for TerminalChunk {
    type V = (u64, Seq<u8>);

    open spec fn view(&self) -> (u64, Seq<u8>) {
        (self.sequence, self.data@)
    }
}

#[verifier::external_type_specification]
#[verifier::external_body]
#[verifier::reject_recursive_types(T)]
pub struct ExArrayQueue<T>(ArrayQueue<T>);

/// The chunks in the queue, oldest first.
pub uninterp spec fn chunk_queue_items(q: ArrayQueue<TerminalChunk>) -> Seq<(u64, Seq<u8>)>;

/// The number of slots the queue was made with.
pub uninterp spec fn chunk_queue_capacity(q: ArrayQueue<TerminalChunk>) -> nat;

/// Relies on `ArrayQueue::new`: an empty queue with `cap` slots; a capacity
/// of zero panics.
#[verifier::external_body]
fn chunk_queue_new(cap: usize) -> (r: ArrayQueue<TerminalChunk>)
    requires
        cap > 0,
    ensures
        chunk_queue_items(r) == Seq::<(u64, Seq<u8>)>::empty(),
        chunk_queue_capacity(r) == cap,
{
    ArrayQueue::new(cap)
}

/// Relies on `ArrayQueue::push_mut`: the chunk is appended unless the queue
/// is full, in which case it is handed back and the queue is unchanged.
#[verifier::external_body]
fn chunk_queue_push(q: &mut ArrayQueue<TerminalChunk>, c: TerminalChunk) -> (r: Result<(), TerminalChunk>)
    ensures
        chunk_queue_capacity(*final(q)) == chunk_queue_capacity(*old(q)),
        r is Ok == (chunk_queue_items(*old(q)).len() < chunk_queue_capacity(*old(q))),
        r is Ok ==> chunk_queue_items(*final(q)) == chunk_queue_items(*old(q)).push(c@),
        r matches Err(back) ==> back == c && chunk_queue_items(*final(q)) == chunk_queue_items(*old(q)),
{
    q.push_mut(c)
}

/// Relies on `ArrayQueue::pop_mut`: the oldest chunk, removed, if any.
#[verifier::external_body]
fn chunk_queue_pop(q: &mut ArrayQueue<TerminalChunk>) -> (r: Option<TerminalChunk>)
    ensures
        chunk_queue_capacity(*final(q)) == chunk_queue_capacity(*old(q)),
        r is Some == (chunk_queue_items(*old(q)).len() > 0),
        r matches Some(c) ==> c@ == chunk_queue_items(*old(q))[0] && chunk_queue_items(*final(q))
            == chunk_queue_items(*old(q)).drop_first(),
        r is None ==> chunk_queue_items(*final(q)) == chunk_queue_items(*old(q)),
{
    q.pop_mut()
}

/// Relies on `ArrayQueue::len`: the number of chunks held.
#[verifier::external_body]
fn chunk_queue_len(q: &ArrayQueue<TerminalChunk>) -> (r: usize)
    ensures
        r == chunk_queue_items(*q).len(),
{
    q.len()
}

/// The queue after appending `x`, evicting the oldest chunk when full.
pub open spec fn enqueue_evicting(q: Seq<(u64, Seq<u8>)>, x: (u64, Seq<u8>), cap: nat) -> Seq<
    (u64, Seq<u8>),
> {
    if q.len() < cap {
        q.push(x)
    } else {
        q.drop_first().push(x)
    }
}

/// A reader's search for the chunk after `last`, over at most `n` chunks:
/// each chunk taken from the front is returned if it is the next one, put
/// back at the end if it is newer, and dropped if it is older. Returns the
/// chunk found, if any, and the queue after the search.
pub open spec fn hunt(q: Seq<(u64, Seq<u8>)>, last: u64, n: nat) -> (Option<(u64, Seq<u8>)>, Seq<
    (u64, Seq<u8>),
>)
    decreases n,
{
    if n == 0 || q.len() == 0 {
        (None, q)
    } else {
        let x = q[0];
        let rest = q.drop_first();
        if last < u64::MAX && x.0 == last + 1 {
            (Some(x), rest)
        } else if x.0 > last {
            hunt(rest.push(x), last, (n - 1) as nat)
        } else {
            hunt(rest, last, (n - 1) as nat)
        }
    }
}

proof fn lemma_hunt_bounded(q: Seq<(u64, Seq<u8>)>, last: u64, n: nat)
    ensures
        hunt(q, last, n).1.len() <= q.len(),
    decreases n,
{
    if n > 0 && q.len() > 0 {
        let x = q[0];
        let rest = q.drop_first();
        if !(last < u64::MAX && x.0 == last + 1) {
            if x.0 > last {
                lemma_hunt_bounded(rest.push(x), last, (n - 1) as nat);
            } else {
                lemma_hunt_bounded(rest, last, (n - 1) as nat);
            }
        }
    }
}

/// Writer side: numbers chunks and queues them.
pub struct TerminalRingBuffer {
    sequence: u64,
    chunks: ArrayQueue<TerminalChunk>,
}

/// Reader side: the sequence number of the last chunk taken.
pub struct TerminalReader {
    last_sequence: u64,
}

impl TerminalRingBuffer {
    /// Chunks queued, oldest first.
    pub closed spec fn items(&self) -> Seq<(u64, Seq<u8>)> {
        chunk_queue_items(self.chunks)
    }

    pub closed spec fn capacity(&self) -> nat {
        chunk_queue_capacity(self.chunks)
    }

    /// Sequence number of the last chunk written; 0 before any write.
    pub closed spec fn last_written(&self) -> u64 {
        self.sequence
    }

    pub open spec fn wf(&self) -> bool {
        &&& self.capacity() > 0
        &&& self.items().len() <= self.capacity()
    }

    pub fn new() -> (r: Self)
        ensures
            r.wf(),
            r.items() == Seq::<(u64, Seq<u8>)>::empty(),
            r.capacity() == CHUNK_SLOTS,
            r.last_written() == 0,
    {
        TerminalRingBuffer { sequence: 0, chunks: chunk_queue_new(CHUNK_SLOTS) }
    }

    /// Queues a copy of `data` under the next sequence number (the first
    /// chunk gets 1), evicting the oldest chunk when the queue is full.
    /// Chunks over `MAX_CHUNK_SIZE` bytes are refused.
    pub fn write(&mut self, data: &[u8]) -> (r: Result<(), &'static str>)
        requires
            old(self).wf(),
        ensures
            final(self).wf(),
            final(self).capacity() == old(self).capacity(),
            r is Err <==> data@.len() > MAX_CHUNK_SIZE,
            r is Err ==> final(self).items() == old(self).items() && final(self).last_written()
                == old(self).last_written(),
            r is Ok ==> final(self).last_written() == old(self).last_written().wrapping_add(1)
                && final(self).items() == enqueue_evicting(
                old(self).items(),
                (final(self).last_written(), data@),
                old(self).capacity(),
            ),
    {
        if data.len() > MAX_CHUNK_SIZE {
            return Err("Data too large for single write");
        }
        self.sequence = self.sequence.wrapping_add(1);
        let mut copy: Vec<u8> = Vec::new();
        copy.extend_from_slice(data);
        assert(copy@ =~= data@);
        let mut chunk = TerminalChunk { sequence: self.sequence, data: copy };
        let ghost x = chunk@;
        let ghost before = self.items();
        let mut evicted: usize = 0;
        loop
            invariant_except_break
                self.capacity() == old(self).capacity(),
                self.capacity() > 0,
                before == old(self).items(),
                before.len() <= self.capacity(),
                self.sequence == old(self).sequence.wrapping_add(1),
                chunk@ == x,
                evicted <= 1,
                evicted == 0 ==> self.items() == before,
                evicted == 1 ==> self.items() == before.drop_first() && before.len() == self.capacity(),
            ensures
                before == old(self).items(),
                self.capacity() == old(self).capacity(),
                self.sequence == old(self).sequence.wrapping_add(1),
                self.items() == enqueue_evicting(before, x, self.capacity()),
                self.items().len() <= self.capacity(),
            decreases 2 - evicted,
        {
            match chunk_queue_push(&mut self.chunks, chunk) {
                Ok(()) => {
                    break ;
                },
                Err(back) => {
                    chunk = back;
                    let _ = chunk_queue_pop(&mut self.chunks);
                    evicted = evicted + 1;
                },
            }
        }
        Ok(())
    }

    /// A reader that has taken nothing yet.
    pub fn create_reader(&self) -> (r: TerminalReader)
        ensures
            r.last_taken() == 0,
    {
        TerminalReader { last_sequence: 0 }
    }
}

impl TerminalReader {
    /// Sequence number of the last chunk this reader took.
    pub closed spec fn last_taken(&self) -> u64 {
        self.last_sequence
    }

    /// Without waiting: looks through the queued chunks once for the chunk
    /// that follows the last one taken. Newer chunks go back to the end of
    /// the queue, older ones are dropped.
    pub fn try_read_next(&mut self, buffer: &mut TerminalRingBuffer) -> (r: Option<TerminalChunk>)
        requires
            old(buffer).wf(),
        ensures
            final(buffer).wf(),
            final(buffer).capacity() == old(buffer).capacity(),
            final(buffer).last_written() == old(buffer).last_written(),
            ({
                let (found, rest) = hunt(
                    old(buffer).items(),
                    old(self).last_taken(),
                    old(buffer).items().len(),
                );
                &&& final(buffer).items() == rest
                &&& match r {
                    Some(c) => found == Some(c@) && final(self).last_taken() == c.sequence,
                    None => found is None && final(self).last_taken() == old(self).last_taken(),
                }
            }),
    {
        let n = chunk_queue_len(&buffer.chunks);
        let ghost q0 = buffer.items();
        let last = self.last_sequence;
        let mut i: usize = 0;
        proof {
            lemma_hunt_bounded(q0, last, n as nat);
        }
        while i < n
            invariant
                i <= n,
                n == q0.len(),
                buffer.capacity() == old(buffer).capacity(),
                buffer.capacity() > 0,
                buffer.items().len() <= buffer.capacity(),
                buffer.sequence == old(buffer).sequence,
                self.last_sequence == last,
                last == old(self).last_taken(),
                q0 == old(buffer).items(),
                hunt(q0, last, n as nat) == hunt(buffer.items(), last, (n - i) as nat),
            decreases n - i,
        {
            let ghost q = buffer.items();
            match chunk_queue_pop(&mut buffer.chunks) {
                Some(chunk) => {
                    if last < u64::MAX && chunk.sequence == last + 1 {
                        self.last_sequence = chunk.sequence;
                        return Some(chunk);
                    } else if chunk.sequence > last {
                        let _ = chunk_queue_push(&mut buffer.chunks, chunk);
                    }
                },
                None => {
                    assert(hunt(q, last, (n - i) as nat) == (None::<(u64, Seq<u8>)>, q));
                    assert(hunt(q, last, (n - i - 1) as nat) == (None::<(u64, Seq<u8>)>, q));
                },
            }
            i = i + 1;
        }
        None
    }
}

} // verus!
