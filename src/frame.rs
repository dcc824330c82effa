//! Reassembly of frames from a chunked byte stream, and what holds of a
//! whole run of chunks: chunking does not change the frames, and no byte is
//! lost, duplicated or reordered.

use vstd::prelude::*;
use vstd::slice::slice_subrange;
use vstd::slice::slice_to_vec;

use crate::utils::check_marker;
use crate::utils::has_no_marker;
use crate::utils::marker_from;
use crate::utils::marker_pos;

verus! {

/// One call of the reassembler: `chunk` is added to `buffer`; if the whole
/// then holds `marker`, the bytes before its first occurrence are the frame
/// and those after it the new buffer. Returns the new buffer and the frame.
pub open spec fn append_step(buffer: Seq<u8>, chunk: Seq<u8>, marker: u8) -> (
    Seq<u8>,
    Option<Seq<u8>>,
) {
    let s = buffer + chunk;
    let i = marker_pos(s, marker);
    if i < s.len() {
        (s.subrange(i + 1, s.len() as int), Some(s.subrange(0, i)))
    } else {
        (s, None)
    }
}

/// The calls of the reassembler on `chunks`, one after the other, from
/// `buffer`: the buffer at the end and the frames given, in order.
pub open spec fn feed(buffer: Seq<u8>, chunks: Seq<Seq<u8>>, marker: u8) -> (
    Seq<u8>,
    Seq<Seq<u8>>,
)
    decreases chunks.len(),
{
    if chunks.len() == 0 {
        (buffer, Seq::empty())
    } else {
        let (next, frame) = append_step(buffer, chunks[0], marker);
        let (last, frames) = feed(next, chunks.drop_first(), marker);
        match frame {
            Some(f) => (last, seq![f] + frames),
            None => (last, frames),
        }
    }
}

/// The frames, each followed by the marker that ended it, one after the other.
pub open spec fn terminated(frames: Seq<Seq<u8>>, marker: u8) -> Seq<u8> {
    frames.map_values(|f: Seq<u8>| f.push(marker)).flatten()
}

/// Cuts frames out of a byte stream that arrives in chunks of any size. A
/// frame is what comes before a marker byte; the marker itself is dropped.
pub struct Reassembler {
    buffer: Vec<u8>,
    marker: u8,
}

impl View for Reassembler {
    type V = Seq<u8>;

    /// The bytes received since the last frame.
    closed spec fn view(&self) -> Seq<u8> {
        self.buffer@
    }
}

/// An optional frame read through its view.
pub open spec fn frame_at(r: Option<Vec<u8>>) -> Option<Seq<u8>> {
    match r {
        Some(v) => Some(v@),
        None => None,
    }
}

impl Reassembler {
    /// The byte that ends a frame.
    pub closed spec fn spec_marker(&self) -> u8 {
        self.marker
    }

    /// An empty reassembler for frames ended by `marker`.
    pub fn new(marker: u8) -> (r: Reassembler)
        ensures
            r@ == Seq::<u8>::empty(),
            r.spec_marker() == marker,
    {
        Reassembler { buffer: Vec::new(), marker }
    }

    /// The byte that ends a frame.
    pub fn marker(&self) -> (r: u8)
        ensures
            r == self.spec_marker(),
    {
        self.marker
    }

    /// The bytes received since the last frame.
    pub fn buffered(&self) -> (r: &[u8])
        ensures
            r@ == self@,
    {
        self.buffer.as_slice()
    }

    /// Takes in one chunk. Gives the frame before the first marker in the
    /// buffered bytes and the chunk, if there is one, and keeps the bytes
    /// after that marker, further markers included, for the next call.
    pub fn append(&mut self, chunk: &[u8]) -> (r: Option<Vec<u8>>)
        ensures
            final(self).spec_marker() == old(self).spec_marker(),
            (final(self)@, frame_at(r)) == append_step(old(self)@, chunk@, old(self).spec_marker()),
    {
        let mut i: usize = 0;
        while i < chunk.len()
            invariant
                i <= chunk@.len(),
                self.marker == old(self).marker,
                self.buffer@ == old(self).buffer@ + chunk@.subrange(0, i as int),
            decreases chunk@.len() - i,
        {
            self.buffer.push(chunk[i]);
            i = i + 1;
            assert(self.buffer@ =~= old(self).buffer@ + chunk@.subrange(0, i as int));
        }
        assert(chunk@.subrange(0, chunk@.len() as int) =~= chunk@);
        let n = self.buffer.len();
        match check_marker(self.buffer.as_slice(), self.marker) {
            Some(m) => {
                let frame = slice_to_vec(slice_subrange(self.buffer.as_slice(), 0, m));
                let rest = self.buffer.split_off(m + 1);
                self.buffer = rest;
                Some(frame)
            },
            None => None,
        }
    }

    /// Ends the stream: the buffered bytes, as the last frame, and an empty
    /// buffer.
    pub fn finish(&mut self) -> (r: Vec<u8>)
        ensures
            r@ == old(self)@,
            final(self)@ == Seq::<u8>::empty(),
            final(self).spec_marker() == old(self).spec_marker(),
    {
        let mut rest = Vec::new();
        std::mem::swap(&mut self.buffer, &mut rest);
        rest
    }

    /// Drops the buffered bytes.
    pub fn clear(&mut self)
        ensures
            final(self)@ == Seq::<u8>::empty(),
            final(self).spec_marker() == old(self).spec_marker(),
    {
        self.buffer.clear();
    }
}


proof fn lemma_marker_from_bounds(s: Seq<u8>, marker: u8, i: int)
    requires
        0 <= i <= s.len(),
    ensures
        i <= marker_from(s, marker, i) <= s.len(),
        marker_from(s, marker, i) < s.len() ==> s[marker_from(s, marker, i)] == marker,
        forall|j: int| i <= j < marker_from(s, marker, i) ==> s[j] != marker,
    decreases s.len() - i,
{
    if i < s.len() && s[i] != marker {
        lemma_marker_from_bounds(s, marker, i + 1);
    }
}

proof fn lemma_feed_empty_chunks(chunks: Seq<Seq<u8>>, marker: u8)
    requires
        chunks.flatten() == Seq::<u8>::empty(),
    ensures
        feed(Seq::empty(), chunks, marker) == (Seq::<u8>::empty(), Seq::<Seq<u8>>::empty()),
    decreases chunks.len(),
{
    if chunks.len() > 0 {
        assert(chunks[0] =~= Seq::<u8>::empty());
        assert(chunks.drop_first().flatten() =~= Seq::<u8>::empty());
        let s = Seq::<u8>::empty() + chunks[0];
        assert(s =~= Seq::<u8>::empty());
        assert(append_step(Seq::empty(), chunks[0], marker) == (Seq::<u8>::empty(), None::<Seq<u8>>));
        lemma_feed_empty_chunks(chunks.drop_first(), marker);
    }
}

proof fn lemma_feed_one_message(
    buffer: Seq<u8>,
    chunks: Seq<Seq<u8>>,
    message: Seq<u8>,
    marker: u8,
)
    requires
        has_no_marker(message, marker),
        buffer + chunks.flatten() == message.push(marker),
        buffer.len() <= message.len(),
    ensures
        feed(buffer, chunks, marker) == (Seq::<u8>::empty(), seq![message]),
    decreases chunks.len(),
{
    let whole = message.push(marker);
    if chunks.len() == 0 {
        assert(buffer + chunks.flatten() =~= buffer);
        assert(false);
    } else {
        let c = chunks[0];
        let rest = chunks.drop_first();
        let s = buffer + c;
        assert(buffer + chunks.flatten() =~= s + rest.flatten());
        assert(whole.subrange(0, s.len() as int) =~= s);
        lemma_marker_from_bounds(s, marker, 0);
        let i = marker_pos(s, marker);
        if i < s.len() {
            // The only marker of the stream is its last byte.
            if i < message.len() {
                assert(s[i] == whole[i]);
            }
            assert(i == message.len());
            assert(s.len() == whole.len());
            assert(rest.flatten().len() == 0);
            assert(rest.flatten() =~= Seq::<u8>::empty());
            assert(s.subrange(0, i) =~= message);
            assert(s.subrange(i + 1, s.len() as int) =~= Seq::<u8>::empty());
            lemma_feed_empty_chunks(rest, marker);
            assert(seq![message] + Seq::<Seq<u8>>::empty() =~= seq![message]);
        } else {
            assert(s.len() <= message.len()) by {
                if s.len() > message.len() {
                    assert(s[message.len() as int] == whole[message.len() as int]);
                }
            }
            lemma_feed_one_message(s, rest, message, marker);
        }
    }
}

/// Chunking does not matter: however a message followed by its marker is cut
/// into chunks, feeding them one after the other to an empty reassembler
/// gives exactly one frame, the message, and leaves nothing buffered.
pub proof fn lemma_chunking_invariance(message: Seq<u8>, chunks: Seq<Seq<u8>>, marker: u8)
    requires
        has_no_marker(message, marker),
        chunks.flatten() == message.push(marker),
    ensures
        feed(Seq::empty(), chunks, marker) == (Seq::<u8>::empty(), seq![message]),
{
    assert(Seq::<u8>::empty() + chunks.flatten() =~= chunks.flatten());
    lemma_feed_one_message(Seq::empty(), chunks, message, marker);
}

/// No byte is lost, duplicated or reordered: the frames given, each with the
/// marker that ended it, followed by what stays buffered, are exactly the
/// bytes that were buffered at the start and then received.
pub proof fn lemma_feed_keeps_bytes(buffer: Seq<u8>, chunks: Seq<Seq<u8>>, marker: u8)
    ensures
        terminated(feed(buffer, chunks, marker).1, marker) + feed(buffer, chunks, marker).0
            == buffer + chunks.flatten(),
    decreases chunks.len(),
{
    if chunks.len() == 0 {
        assert(terminated(Seq::empty(), marker) =~= Seq::<u8>::empty()) by {
            assert(Seq::<Seq<u8>>::empty().map_values(|f: Seq<u8>| f.push(marker)) =~= Seq::empty());
        }
        assert(Seq::<u8>::empty() + buffer =~= buffer);
        assert(buffer + chunks.flatten() =~= buffer);
    } else {
        let c = chunks[0];
        let rest = chunks.drop_first();
        let s = buffer + c;
        let (next, frame) = append_step(buffer, c, marker);
        let (last, frames) = feed(next, rest, marker);
        lemma_feed_keeps_bytes(next, rest, marker);
        assert(buffer + chunks.flatten() =~= s + rest.flatten());
        match frame {
            Some(f) => {
                lemma_marker_from_bounds(s, marker, 0);
                let i = marker_pos(s, marker);
                let all = seq![f] + frames;
                let pushed = all.map_values(|g: Seq<u8>| g.push(marker));
                assert(pushed.drop_first() =~= frames.map_values(|g: Seq<u8>| g.push(marker)));
                assert(pushed.first() == f.push(marker));
                assert(terminated(all, marker) == f.push(marker) + terminated(frames, marker));
                assert(f.push(marker) + next =~= s) by {
                    assert(s[i] == marker);
                }
                assert(terminated(all, marker) + last =~= f.push(marker) + (terminated(frames, marker) + last));
            },
            None => {},
        }
    }
}

} // verus!
