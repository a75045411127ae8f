//! Decoding a byte stream into text when multi-byte characters may be split
//! across chunk boundaries.
use vstd::prelude::*;
use vstd::slice::slice_subrange;
use vstd::string::*;
use vstd::utf8::*;

verus! {

broadcast use vstd::seq_lib::group_seq_properties;

/// The largest `j <= i` such that the first `j` bytes of `b` are valid UTF-8.
pub open spec fn longest_valid_prefix_upto(b: Seq<u8>, i: int) -> int
    decreases i,
{
    if i <= 0 {
        0
    } else if valid_utf8(b.subrange(0, i)) {
        i
    } else {
        longest_valid_prefix_upto(b, i - 1)
    }
}

/// Length of the longest prefix of `b` that is valid UTF-8.
pub open spec fn valid_up_to(b: Seq<u8>) -> int {
    longest_valid_prefix_upto(b, b.len() as int)
}

/// Number of bytes in the encoding that leading byte `b` starts (0 when `b`
/// cannot start a multi-byte encoding).
pub open spec fn multibyte_width(b: u8) -> int {
    if is_leading_byte_width_2(b) {
        2
    } else if is_leading_byte_width_3(b) {
        3
    } else if is_leading_byte_width_4(b) {
        4
    } else {
        0
    }
}

/// `r` is the beginning of a multi-byte character whose remaining bytes have
/// not arrived yet: a leading byte and fewer continuation bytes than it needs.
pub open spec fn partial_char(r: Seq<u8>) -> bool {
    &&& r.len() >= 1
    &&& r.len() < multibyte_width(r[0])
    &&& forall|i: int| 1 <= i < r.len() ==> is_continuation_byte(#[trigger] r[i])
}

/// What is held between chunks: nothing, or a partial character.
pub open spec fn partial_or_empty(r: Seq<u8>) -> bool {
    r.len() == 0 || partial_char(r)
}

/// Decoding bytes `b`: the longest valid prefix is emitted; the rest is kept
/// if it is a partial character, and otherwise its first byte (which starts
/// no valid character) is skipped and decoding goes on after it. Returns the
/// text and the bytes kept for the next chunk.
pub open spec fn decode_all(b: Seq<u8>) -> (Seq<char>, Seq<u8>)
    decreases b.len(),
{
    let v = valid_up_to(b);
    let rem = b.subrange(v, b.len() as int);
    if v < 0 || v > b.len() || rem.len() == 0 {
        (decode_utf8(b), seq![])
    } else if partial_char(rem) {
        (decode_utf8(b.subrange(0, v)), rem)
    } else {
        let (o, p) = decode_all(rem.drop_first());
        (decode_utf8(b.subrange(0, v)) + o, p)
    }
}

/// One call of the decoder: the saved bytes `pending` followed by the new
/// chunk `input` are decoded together.
pub open spec fn decode_step(pending: Seq<u8>, input: Seq<u8>) -> (Seq<char>, Seq<u8>) {
    decode_all(pending + input)
}

/// Relies on `simdutf8::basic::from_utf8`: it succeeds exactly when the bytes
/// are valid UTF-8, and then returns them as text.
#[verifier::external_body]
fn simd_from_utf8(bytes: &[u8]) -> (r: Option<&str>)
    ensures
        r.is_some() == valid_utf8(bytes@),
        r matches Some(s) ==> s@ == decode_utf8(bytes@),
{
    simdutf8::basic::from_utf8(bytes).ok()
}

/// Relies on `std::str::from_utf8`: it succeeds exactly when the bytes are
/// valid UTF-8; on failure, `Utf8Error::valid_up_to` is the largest index up
/// to which the bytes are valid UTF-8.
#[verifier::external_body]
pub(crate) fn std_from_utf8(bytes: &[u8]) -> (r: Result<&str, usize>)
    ensures
        r.is_ok() == valid_utf8(bytes@),
        r matches Ok(s) ==> s@ == decode_utf8(bytes@),
        r matches Err(n) ==> n as int == valid_up_to(bytes@),
{
    match std::str::from_utf8(bytes) {
        Ok(s) => Ok(s),
        Err(e) => Err(e.valid_up_to()),
    }
}

fn is_partial_char(r: &[u8]) -> (b: bool)
    ensures
        b == partial_char(r@),
{
    if r.len() == 0 {
        return false;
    }
    let lead = r[0];
    let width: usize = if 0xc0 <= lead && lead <= 0xdf {
        2
    } else if 0xe0 <= lead && lead <= 0xef {
        3
    } else if 0xf0 <= lead && lead <= 0xf7 {
        4
    } else {
        0
    };
    if r.len() >= width {
        return false;
    }
    let mut i: usize = 1;
    while i < r.len()
        invariant
            1 <= i <= r@.len(),
            forall|j: int| 1 <= j < i ==> is_continuation_byte(#[trigger] r@[j]),
        decreases r@.len() - i,
    {
        if !(0x80 <= r[i] && r[i] <= 0xbf) {
            return false;
        }
        i = i + 1;
    }
    true
}

/// Streaming UTF-8 decoder that carries an incomplete trailing character from
/// one chunk to the next.
pub struct Utf8StreamDecoder {
    incomplete: Vec<u8>,
}

impl Utf8StreamDecoder {
    /// The bytes saved from the previous chunk.
    pub closed spec fn pending(&self) -> Seq<u8> {
        self.incomplete@
    }

    pub fn new() -> (r: Self)
        ensures
            r.pending() == Seq::<u8>::empty(),
    {
        Utf8StreamDecoder { incomplete: Vec::new() }
    }

    /// Decodes the saved bytes followed by `input`: all complete valid text is
    /// emitted, a trailing partial character (at most 3 bytes) is saved for
    /// the next call, and bytes that can start no character are skipped.
    /// Returns the text and the number of bytes consumed (always the whole
    /// chunk). On a stream that is (a prefix of) valid UTF-8, nothing is
    /// lost: the saved and new bytes are exactly the emitted text's bytes
    /// followed by the newly saved bytes.
    pub fn decode_chunk(&mut self, input: &[u8]) -> (r: (String, usize))
        ensures
            (r.0@, final(self).pending()) == decode_step(old(self).pending(), input@),
            r.1 == input@.len(),
            final(self).pending().len() <= 3,
            partial_or_empty(final(self).pending()),
            forall|rest: Seq<u8>|
                #[trigger] valid_utf8(old(self).pending() + input@ + rest) ==> old(self).pending()
                    + input@ == encode_utf8(r.0@) + final(self).pending(),
    {
        let ghost all0 = self.incomplete@ + input@;
        let mut all: Vec<u8> = Vec::new();
        let mut i: usize = 0;
        while i < self.incomplete.len()
            invariant
                i <= self.incomplete@.len(),
                all@ == self.incomplete@.subrange(0, i as int),
            decreases self.incomplete@.len() - i,
        {
            all.push(self.incomplete[i]);
            i = i + 1;
        }
        let mut j: usize = 0;
        while j < input.len()
            invariant
                j <= input@.len(),
                all@ == self.incomplete@ + input@.subrange(0, j as int),
            decreases input@.len() - j,
        {
            all.push(input[j]);
            j = j + 1;
        }
        proof {
            assert(input@.subrange(0, input@.len() as int) =~= input@);
            assert(all@ =~= all0);
        }
        let mut out = String::new();
        let mut start: usize = 0;
        let mut saved: Vec<u8> = Vec::new();
        proof {
            assert(all@.subrange(0, all@.len() as int) =~= all0);
            assert(out@ + decode_all(all0).0 =~= decode_all(all0).0);
        }
        loop
            invariant_except_break
                all@ == all0,
                saved@ == Seq::<u8>::empty(),
                start <= all@.len(),
                out@ + decode_all(all@.subrange(start as int, all@.len() as int)).0 == decode_all(
                    all0,
                ).0,
                decode_all(all@.subrange(start as int, all@.len() as int)).1 == decode_all(all0).1,
            ensures
                out@ == decode_all(all0).0,
                saved@ == decode_all(all0).1,
            decreases all@.len() - start,
        {
            let seg = slice_subrange(all.as_slice(), start, all.len());
            let ghost sv = seg@;
            match simd_from_utf8(seg) {
                Some(text) => {
                    proof {
                        lemma_valid_up_to_of_valid(sv);
                        assert(sv.subrange(valid_up_to(sv), sv.len() as int).len() == 0);
                    }
                    out.append(text);
                    break ;
                },
                None => {},
            }
            match std_from_utf8(seg) {
                Ok(text) => {
                    proof {
                        lemma_valid_up_to_of_valid(sv);
                        assert(sv.subrange(valid_up_to(sv), sv.len() as int).len() == 0);
                    }
                    out.append(text);
                    break ;
                },
                Err(v) => {
                    proof {
                        lemma_valid_up_to_bounds(sv);
                        lemma_valid_up_to_valid(sv);
                    }
                    let prefix = slice_subrange(seg, 0, v);
                    match std_from_utf8(prefix) {
                        Ok(text) => {
                            out.append(text);
                        },
                        Err(_) => {},
                    }
                    let rem = slice_subrange(seg, v, seg.len());
                    if v == seg.len() {
                        proof {
                            assert(sv.subrange(0, sv.len() as int) =~= sv);
                        }
                        break ;
                    }
                    if is_partial_char(rem) {
                        saved.extend_from_slice(rem);
                        proof {
                            assert(saved@ =~= rem@);
                        }
                        break ;
                    }
                    proof {
                        assert(rem@.drop_first() =~= all@.subrange(
                            start + v + 1,
                            all@.len() as int,
                        ));
                    }
                    start = start + v + 1;
                },
            }
        }
        self.incomplete = saved;
        proof {
            lemma_decode_all_keeps_partial(all0);
            assert forall|rest: Seq<u8>| #[trigger]
                valid_utf8(old(self).pending() + input@ + rest) implies old(self).pending() + input@
                == encode_utf8(out@) + self.incomplete@ by {
                assert(old(self).pending() + input@ == all0);
                lemma_decode_all_lossless(all0, rest);
            }
        }
        (out, input.len())
    }
}

proof fn lemma_longest_upto_bounds(b: Seq<u8>, i: int)
    requires
        i <= b.len(),
    ensures
        0 <= longest_valid_prefix_upto(b, i),
        longest_valid_prefix_upto(b, i) <= if i < 0 { 0 } else { i },
        valid_utf8(b.subrange(0, longest_valid_prefix_upto(b, i))),
    decreases i,
{
    if i <= 0 {
        assert(b.subrange(0, 0) =~= Seq::<u8>::empty());
    } else if !valid_utf8(b.subrange(0, i)) {
        lemma_longest_upto_bounds(b, i - 1);
    }
}

/// The longest valid prefix lies within the sequence.
pub proof fn lemma_valid_up_to_bounds(b: Seq<u8>)
    ensures
        0 <= valid_up_to(b) <= b.len(),
{
    lemma_longest_upto_bounds(b, b.len() as int);
}

/// The longest valid prefix is valid UTF-8.
pub proof fn lemma_valid_up_to_valid(b: Seq<u8>)
    ensures
        valid_utf8(b.subrange(0, valid_up_to(b))),
{
    lemma_longest_upto_bounds(b, b.len() as int);
}

/// A valid sequence is its own longest valid prefix.
pub proof fn lemma_valid_up_to_of_valid(b: Seq<u8>)
    requires
        valid_utf8(b),
    ensures
        valid_up_to(b) == b.len(),
        b.subrange(0, valid_up_to(b)) == b,
{
    if b.len() > 0 {
        assert(b.subrange(0, b.len() as int) =~= b);
    } else {
        assert(b.subrange(0, 0) =~= b);
    }
}

proof fn lemma_longest_upto_maximal(b: Seq<u8>, i: int, j: int)
    requires
        i <= b.len(),
        longest_valid_prefix_upto(b, i) < j <= i,
    ensures
        !valid_utf8(b.subrange(0, j)),
    decreases i,
{
    if i > 0 && !valid_utf8(b.subrange(0, i)) && j < i {
        lemma_longest_upto_maximal(b, i - 1, j);
    }
}

proof fn lemma_longest_upto_at_least(b: Seq<u8>, i: int, j: int)
    requires
        0 <= j <= i <= b.len(),
        valid_utf8(b.subrange(0, j)),
    ensures
        longest_valid_prefix_upto(b, i) >= j,
    decreases i,
{
    if i > 0 && !valid_utf8(b.subrange(0, i)) {
        lemma_longest_upto_at_least(b, i - 1, j);
    }
}

/// A first scalar is determined by the bytes it occupies.
proof fn lemma_first_scalar_prefix(w: Seq<u8>, p: Seq<u8>)
    requires
        valid_first_scalar(p),
        p.len() <= w.len(),
        forall|k: int| 0 <= k < p.len() ==> p[k] == w[k],
    ensures
        valid_first_scalar(w),
        length_of_first_scalar(w) == length_of_first_scalar(p),
        decode_first_scalar(w) == decode_first_scalar(p),
{
    assert(p[0] == w[0]);
    if p.len() > 1 {
        assert(p[1] == w[1]);
    }
    if p.len() > 2 {
        assert(p[2] == w[2]);
    }
    if p.len() > 3 {
        assert(p[3] == w[3]);
    }
}

/// Cutting a valid UTF-8 sequence after a valid prefix leaves a valid suffix,
/// and the text splits accordingly.
pub proof fn lemma_valid_prefix_split(w: Seq<u8>, i: int)
    requires
        valid_utf8(w),
        0 <= i <= w.len(),
        valid_utf8(w.subrange(0, i)),
    ensures
        valid_utf8(w.subrange(i, w.len() as int)),
        decode_utf8(w) == decode_utf8(w.subrange(0, i)) + decode_utf8(w.subrange(i, w.len() as int)),
    decreases i,
{
    if i == 0 {
        assert(w.subrange(0, w.len() as int) =~= w);
        assert(decode_utf8(w.subrange(0, 0)) =~= Seq::<char>::empty());
        assert(decode_utf8(w) =~= decode_utf8(w.subrange(0, 0)) + decode_utf8(w));
    } else {
        let p = w.subrange(0, i);
        assert(valid_first_scalar(p));
        lemma_first_scalar_prefix(w, p);
        let l = length_of_first_scalar(p);
        let w1 = pop_first_scalar(w);
        let p1 = pop_first_scalar(p);
        assert(p1 =~= w1.subrange(0, i - l));
        lemma_valid_prefix_split(w1, i - l);
        assert(w1.subrange(i - l, w1.len() as int) =~= w.subrange(i, w.len() as int));
        assert(decode_utf8(w) =~= seq![decode_first_scalar(w) as char] + decode_utf8(w1));
        assert(decode_utf8(p) =~= seq![decode_first_scalar(p) as char] + decode_utf8(p1));
        assert(decode_utf8(w) =~= decode_utf8(p) + decode_utf8(w.subrange(i, w.len() as int)));
    }
}

proof fn lemma_single_scalar_valid(s: Seq<u8>)
    requires
        valid_first_scalar(s),
    ensures
        valid_utf8(s.subrange(0, length_of_first_scalar(s))),
{
    let c = s.subrange(0, length_of_first_scalar(s));
    lemma_first_scalar_prefix_rev(s, c);
    assert(pop_first_scalar(c) =~= Seq::<u8>::empty());
    reveal_with_fuel(valid_utf8, 2);
}

proof fn lemma_first_scalar_prefix_rev(s: Seq<u8>, c: Seq<u8>)
    requires
        valid_first_scalar(s),
        c.len() == length_of_first_scalar(s),
        c.len() <= s.len(),
        forall|k: int| 0 <= k < c.len() ==> c[k] == s[k],
    ensures
        valid_first_scalar(c),
        length_of_first_scalar(c) == c.len(),
{
    assert(c[0] == s[0]);
    if c.len() > 1 {
        assert(c[1] == s[1]);
    }
    if c.len() > 2 {
        assert(c[2] == s[2]);
    }
    if c.len() > 3 {
        assert(c[3] == s[3]);
    }
}


proof fn lemma_decode_all_keeps_partial(b: Seq<u8>)
    ensures
        partial_or_empty(decode_all(b).1),
        decode_all(b).1.len() <= 3,
    decreases b.len(),
{
    let v = valid_up_to(b);
    let rem = b.subrange(v, b.len() as int);
    if v < 0 || v > b.len() || rem.len() == 0 {
    } else if partial_char(rem) {
    } else {
        lemma_decode_all_keeps_partial(rem.drop_first());
    }
}

/// When `b` can be continued into valid UTF-8, decoding it loses nothing: `b`
/// is the encoding of the emitted text followed by the saved partial
/// character, and the saved bytes together with the continuation are valid.
pub proof fn lemma_decode_all_lossless(b: Seq<u8>, c: Seq<u8>)
    requires
        valid_utf8(b + c),
    ensures
        b == encode_utf8(decode_all(b).0) + decode_all(b).1,
        valid_utf8(decode_all(b).1 + c),
{
    broadcast use vstd::utf8::decode_utf8_encode_utf8;

    lemma_valid_up_to_bounds(b);
    lemma_valid_up_to_valid(b);
    let v = valid_up_to(b);
    let w = b + c;
    let rem = b.subrange(v, b.len() as int);
    assert(w.subrange(0, v) =~= b.subrange(0, v));
    lemma_valid_prefix_split(w, v);
    let s = w.subrange(v, w.len() as int);
    assert(s =~= rem + c);
    if rem.len() == 0 {
        assert(b.subrange(0, v) =~= b);
        assert(b =~= encode_utf8(decode_utf8(b)) + Seq::<u8>::empty());
        assert(Seq::<u8>::empty() + c =~= c);
        assert(s =~= c);
    } else {
        assert(valid_first_scalar(s));
        let l = length_of_first_scalar(s);
        if l <= rem.len() {
            lemma_single_scalar_valid(s);
            assert(s.subrange(0, l) =~= b.subrange(v, v + l));
            vstd::utf8::valid_utf8_concat(b.subrange(0, v), b.subrange(v, v + l));
            assert(b.subrange(0, v) + b.subrange(v, v + l) =~= b.subrange(0, v + l));
            lemma_longest_upto_at_least(b, b.len() as int, v + l);
            assert(false);
        }
        assert(rem[0] == s[0]);
        assert forall|i: int| 1 <= i < rem.len() implies is_continuation_byte(#[trigger] rem[i]) by {
            assert(rem[i] == s[i]);
        }
        assert(partial_char(rem));
        assert(b =~= b.subrange(0, v) + rem);
    }
}

/// The bytes of `chunks`, in order.
pub open spec fn flatten_chunks(chunks: Seq<Seq<u8>>) -> Seq<u8>
    decreases chunks.len(),
{
    if chunks.len() == 0 {
        seq![]
    } else {
        chunks[0] + flatten_chunks(chunks.drop_first())
    }
}

/// Decoding `chunks` one call at a time, starting with `pending` saved: the
/// text of all calls and the bytes saved at the end.
pub open spec fn decode_chunks(pending: Seq<u8>, chunks: Seq<Seq<u8>>) -> (Seq<char>, Seq<u8>)
    decreases chunks.len(),
{
    if chunks.len() == 0 {
        (seq![], pending)
    } else {
        let (o1, p1) = decode_step(pending, chunks[0]);
        let (o2, p2) = decode_chunks(p1, chunks.drop_first());
        (o1 + o2, p2)
    }
}

proof fn lemma_decode_chunks_from(p: Seq<u8>, chunks: Seq<Seq<u8>>)
    requires
        partial_or_empty(p),
        valid_utf8(p + flatten_chunks(chunks)),
    ensures
        decode_chunks(p, chunks).0 == decode_utf8(p + flatten_chunks(chunks)),
        decode_chunks(p, chunks).1 == Seq::<u8>::empty(),
    decreases chunks.len(),
{
    broadcast use vstd::utf8::decode_utf8_encode_utf8;
    broadcast use vstd::utf8::encode_utf8_decode_utf8;
    broadcast use vstd::utf8::encode_utf8_valid_utf8;

    if chunks.len() == 0 {
        assert(p + Seq::<u8>::empty() =~= p);
        if p.len() > 0 {
            assert(valid_first_scalar(p));
            assert(false);
        }
        assert(decode_utf8(Seq::<u8>::empty()) =~= Seq::<char>::empty());
    } else {
        let b = p + chunks[0];
        let c = flatten_chunks(chunks.drop_first());
        assert(p + flatten_chunks(chunks) =~= b + c);
        lemma_decode_all_lossless(b, c);
        lemma_decode_all_keeps_partial(b);
        let (o1, p1) = decode_all(b);
        lemma_decode_chunks_from(p1, chunks.drop_first());
        let e = encode_utf8(o1);
        assert(b + c =~= e + (p1 + c));
        assert(valid_utf8(e));
        assert((e + (p1 + c)).subrange(0, e.len() as int) =~= e);
        assert((e + (p1 + c)).subrange(e.len() as int, (e + (p1 + c)).len() as int) =~= p1 + c);
        lemma_valid_prefix_split(e + (p1 + c), e.len() as int);
    }
}

/// Feeding a valid UTF-8 byte sequence to a fresh decoder in any number of
/// chunks, split anywhere (so a character may span several chunks), yields
/// exactly its text and leaves nothing saved.
pub proof fn lemma_chunked_decoding_matches_whole(chunks: Seq<Seq<u8>>)
    requires
        valid_utf8(flatten_chunks(chunks)),
    ensures
        decode_chunks(Seq::empty(), chunks).0 == decode_utf8(flatten_chunks(chunks)),
        decode_chunks(Seq::empty(), chunks).1 == Seq::<u8>::empty(),
{
    assert(Seq::<u8>::empty() + flatten_chunks(chunks) =~= flatten_chunks(chunks));
    lemma_decode_chunks_from(Seq::empty(), chunks);
}

/// Splitting a valid UTF-8 byte sequence at any offset into two chunks, fed
/// in order to a fresh decoder, yields the same text as feeding it whole.
pub proof fn lemma_split_decoding_matches_whole(w: Seq<u8>, k: int)
    requires
        valid_utf8(w),
        0 <= k <= w.len(),
    ensures
        decode_chunks(Seq::empty(), seq![w]).0 == decode_utf8(w),
        decode_chunks(Seq::empty(), seq![w.subrange(0, k), w.subrange(k, w.len() as int)]).0
            == decode_utf8(w),
{
    let one = seq![w];
    let two = seq![w.subrange(0, k), w.subrange(k, w.len() as int)];
    reveal_with_fuel(flatten_chunks, 3);
    assert(one.drop_first() =~= Seq::<Seq<u8>>::empty());
    assert(flatten_chunks(one) =~= w);
    assert(two.drop_first() =~= seq![w.subrange(k, w.len() as int)]);
    assert(two.drop_first().drop_first() =~= Seq::<Seq<u8>>::empty());
    assert(flatten_chunks(two) =~= w);
    lemma_chunked_decoding_matches_whole(one);
    lemma_chunked_decoding_matches_whole(two);
}

} // verus!
