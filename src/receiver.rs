//! Reassembly of frames from a stream of byte chunks that may split or misalign them.
use vstd::prelude::*;

use crate::packet::{
    is_end_marker, is_frame, is_sbus_packet_end, Data, Packet, SBUS_PACKET_BEGIN, SBUS_PACKET_SIZE,
};

verus! {

/// `bytes` from its first start marker on; empty when it holds none.
pub open spec fn from_first_start(bytes: Seq<u8>) -> Seq<u8>
    decreases bytes.len(),
{
    if bytes.len() == 0 {
        bytes
    } else if bytes[0] == SBUS_PACKET_BEGIN {
        bytes
    } else {
        from_first_start(bytes.drop_first())
    }
}

/// What a receiver may hold between chunks: the start of a frame, shorter than a frame.
pub open spec fn is_partial_frame(buffered: Seq<u8>) -> bool {
    &&& buffered.len() < SBUS_PACKET_SIZE
    &&& buffered.len() > 0 ==> buffered[0] == SBUS_PACKET_BEGIN
}

/// A chunk that continues the buffered bytes, with the start markers of the buffer tried in
/// order from `offset` on. For the first one, the chunk either is too short to complete a frame
/// from it (it is kept behind that marker) or holds an end marker where that frame would end (the
/// frame is emitted, and what follows it in the chunk is scanned for a new start). A marker whose
/// frame would end on another byte is passed over. `None` when every marker is passed over.
/// The result is the new buffer and the frame emitted, if any.
pub open spec fn continuation(buffered: Seq<u8>, chunk: Seq<u8>, offset: nat) -> Option<
    (Seq<u8>, Option<Seq<u8>>),
>
    decreases buffered.len() - offset,
{
    if offset >= buffered.len() {
        None
    } else if buffered[offset as int] != SBUS_PACKET_BEGIN {
        continuation(buffered, chunk, offset + 1)
    } else {
        let partial = buffered.subrange(offset as int, buffered.len() as int);
        let needed = SBUS_PACKET_SIZE - partial.len();
        if chunk.len() < needed {
            Some((partial + chunk, None))
        } else if is_end_marker(chunk[needed - 1]) {
            Some(
                (
                    from_first_start(chunk.subrange(needed, chunk.len() as int)),
                    Some(partial + chunk.subrange(0, needed)),
                ),
            )
        } else {
            continuation(buffered, chunk, offset + 1)
        }
    }
}

/// A chunk that meets an empty buffer: a whole chunk that is a frame is emitted; otherwise the
/// chunk, past its first byte when it has the length of a frame, is scanned for a start marker.
pub open spec fn fresh_scan(chunk: Seq<u8>) -> (Seq<u8>, Option<Seq<u8>>) {
    if chunk.len() == SBUS_PACKET_SIZE {
        if is_frame(chunk) {
            (Seq::empty(), Some(chunk))
        } else {
            (from_first_start(chunk.drop_first()), None)
        }
    } else {
        (from_first_start(chunk), None)
    }
}

/// One chunk received with `buffered` held: the new buffer, and the frame emitted, if any.
/// When no start marker of the buffer leads to a frame, the buffer is dropped and the chunk is
/// read as if nothing had been held.
pub open spec fn receive_step(buffered: Seq<u8>, chunk: Seq<u8>) -> (Seq<u8>, Option<Seq<u8>>) {
    match continuation(buffered, chunk, 0) {
        Some(outcome) => outcome,
        None => fresh_scan(chunk),
    }
}

/// Where the frame begun at start marker `offset` of `buffered` would end within a chunk.
pub open spec fn frame_end_in_chunk(buffered: Seq<u8>, offset: int) -> int {
    SBUS_PACKET_SIZE - (buffered.len() - offset) - 1
}

/// Some start marker held expects its end marker at a byte of `chunk` that is one.
pub open spec fn completes_held_marker(buffered: Seq<u8>, chunk: Seq<u8>) -> bool {
    exists|o: int|
        0 <= o < buffered.len() && buffered[o] == SBUS_PACKET_BEGIN && 0 <= #[trigger] frame_end_in_chunk(
            buffered,
            o,
        ) < chunk.len() && is_end_marker(chunk[frame_end_in_chunk(buffered, o)])
}

proof fn lemma_no_start(bytes: Seq<u8>)
    requires
        forall|k: int| 0 <= k < bytes.len() ==> bytes[k] != SBUS_PACKET_BEGIN,
    ensures
        from_first_start(bytes) == Seq::<u8>::empty(),
    decreases bytes.len(),
{
    if bytes.len() > 0 {
        lemma_no_start(bytes.drop_first());
    }
}

/// A chunk that reaches the end of the frame of every start marker held, and holds no end
/// marker at any of those ends, leads nowhere from `offset` on.
proof fn lemma_continuation_fails(buffered: Seq<u8>, chunk: Seq<u8>, offset: nat)
    requires
        buffered.len() < SBUS_PACKET_SIZE,
        chunk.len() == SBUS_PACKET_SIZE,
        !completes_held_marker(buffered, chunk),
    ensures
        continuation(buffered, chunk, offset) is None,
    decreases buffered.len() - offset,
{
    if offset < buffered.len() {
        if buffered[offset as int] == SBUS_PACKET_BEGIN {
            assert(0 <= frame_end_in_chunk(buffered, offset as int) < chunk.len());
        }
        lemma_continuation_fails(buffered, chunk, offset + 1);
    }
}

/// Every frame emitted has both markers in place, and what is held afterwards is again the start
/// of a frame.
pub proof fn lemma_step_emits_frames(buffered: Seq<u8>, chunk: Seq<u8>)
    requires
        is_partial_frame(buffered),
        chunk.len() <= SBUS_PACKET_SIZE,
    ensures
        is_partial_frame(receive_step(buffered, chunk).0),
        receive_step(buffered, chunk).1 matches Some(frame) ==> is_frame(frame),
{
    lemma_continuation_emits_frames(buffered, chunk, 0);
    lemma_scan_is_partial(chunk);
    if chunk.len() > 0 {
        lemma_scan_is_partial(chunk.drop_first());
    }
}

proof fn lemma_scan_is_partial(bytes: Seq<u8>)
    requires
        bytes.len() <= SBUS_PACKET_SIZE,
    ensures
        from_first_start(bytes).len() <= bytes.len(),
        bytes.len() < SBUS_PACKET_SIZE ==> is_partial_frame(from_first_start(bytes)),
    decreases bytes.len(),
{
    if bytes.len() > 0 && bytes[0] != SBUS_PACKET_BEGIN {
        lemma_scan_is_partial(bytes.drop_first());
    }
}

proof fn lemma_continuation_emits_frames(buffered: Seq<u8>, chunk: Seq<u8>, offset: nat)
    requires
        is_partial_frame(buffered),
        chunk.len() <= SBUS_PACKET_SIZE,
    ensures
        continuation(buffered, chunk, offset) matches Some(outcome) ==> {
            &&& is_partial_frame(outcome.0)
            &&& outcome.1 matches Some(frame) ==> is_frame(frame)
        },
    decreases buffered.len() - offset,
{
    if offset < buffered.len() {
        lemma_continuation_emits_frames(buffered, chunk, offset + 1);
        if buffered[offset as int] == SBUS_PACKET_BEGIN {
            let partial = buffered.subrange(offset as int, buffered.len() as int);
            let needed = SBUS_PACKET_SIZE - partial.len();
            if chunk.len() >= needed {
                lemma_scan_is_partial(chunk.subrange(needed, chunk.len() as int));
                let frame = partial + chunk.subrange(0, needed);
                assert(frame[0] == partial[0]);
                assert(frame[SBUS_PACKET_SIZE - 1] == chunk[needed - 1]);
            }
        }
    }
}

/// A frame's length of 0xFF bytes holds neither marker: whatever was held, nothing is emitted
/// and nothing is held afterwards.
pub proof fn lemma_noise_clears(buffered: Seq<u8>, chunk: Seq<u8>)
    requires
        is_partial_frame(buffered),
        chunk.len() == SBUS_PACKET_SIZE,
        forall|k: int| 0 <= k < chunk.len() ==> chunk[k] == 0xFF,
    ensures
        receive_step(buffered, chunk) == (Seq::<u8>::empty(), None::<Seq<u8>>),
{
    assert(!completes_held_marker(buffered, chunk));
    lemma_continuation_fails(buffered, chunk, 0);
    lemma_no_start(chunk.drop_first());
}

/// A frame cut in two at any byte and given as two chunks to a receiver that holds nothing is
/// emitted by the second chunk, as it is when given whole, and nothing is held afterwards.
pub proof fn lemma_split_frame(frame: Seq<u8>, k: int)
    requires
        is_frame(frame),
        1 <= k < SBUS_PACKET_SIZE,
    ensures
        receive_step(Seq::<u8>::empty(), frame.take(k)) == (frame.take(k), None::<Seq<u8>>),
        receive_step(frame.take(k), frame.skip(k)) == (Seq::<u8>::empty(), Some(frame)),
        receive_step(Seq::<u8>::empty(), frame) == (Seq::<u8>::empty(), Some(frame)),
{
    let head = frame.take(k);
    let tail = frame.skip(k);
    assert(head.subrange(0, k) =~= head);
    assert(tail.subrange(0, tail.len() as int) =~= tail);
    assert(head + tail =~= frame);
    assert(tail.subrange(tail.len() as int, tail.len() as int) =~= Seq::<u8>::empty());
}

/// A chunk that holds the end of one frame and the start of the next emits the first frame and
/// keeps the start of the second, which the chunk after it completes.
pub proof fn lemma_back_to_back(first: Seq<u8>, second: Seq<u8>, k: int, j: int)
    requires
        is_frame(first),
        is_frame(second),
        1 <= j <= k < SBUS_PACKET_SIZE,
    ensures
        receive_step(first.take(k), first.skip(k) + second.take(j)) == (second.take(j), Some(first)),
        receive_step(second.take(j), second.skip(j)) == (Seq::<u8>::empty(), Some(second)),
{
    let head = first.take(k);
    let chunk = first.skip(k) + second.take(j);
    let needed = SBUS_PACKET_SIZE - k;
    assert(head.subrange(0, k) =~= head);
    assert(chunk.subrange(0, needed) =~= first.skip(k));
    assert(head + first.skip(k) =~= first);
    assert(chunk.subrange(needed, chunk.len() as int) =~= second.take(j));
    lemma_split_frame(second, j);
}

/// Resynchronisation. Held bytes that no start marker of theirs can complete are dropped: a
/// whole frame that follows is then emitted, and nothing is held afterwards.
pub proof fn lemma_frame_after_stale(buffered: Seq<u8>, frame: Seq<u8>)
    requires
        is_partial_frame(buffered),
        is_frame(frame),
        !completes_held_marker(buffered, frame),
    ensures
        receive_step(buffered, frame) == (Seq::<u8>::empty(), Some(frame)),
{
    lemma_continuation_fails(buffered, frame, 0);
}

/// A chunk that is not a frame emits nothing from a receiver that holds nothing; a whole frame
/// that follows it is emitted unless a start marker that the chunk left held expects its end
/// marker at a byte of that frame that is one.
pub proof fn lemma_garbage_then_frame(chunk: Seq<u8>, frame: Seq<u8>)
    requires
        chunk.len() <= SBUS_PACKET_SIZE,
        !is_frame(chunk),
        is_frame(frame),
        !completes_held_marker(receive_step(Seq::<u8>::empty(), chunk).0, frame),
    ensures
        receive_step(Seq::<u8>::empty(), chunk).1 is None,
        receive_step(receive_step(Seq::<u8>::empty(), chunk).0, frame) == (
            Seq::<u8>::empty(),
            Some(frame),
        ),
{
    lemma_step_emits_frames(Seq::<u8>::empty(), chunk);
    lemma_frame_after_stale(receive_step(Seq::<u8>::empty(), chunk).0, frame);
}

/// With nothing held, as after `new` or `reset`, a chunk is read by the fresh scan alone: what
/// was held before a reset has no part in it.
pub proof fn lemma_empty_reads_fresh(chunk: Seq<u8>)
    ensures
        receive_step(Seq::<u8>::empty(), chunk) == fresh_scan(chunk),
{
}

/// Assembles frames from chunks of bytes given in the order they arrived.
#[derive(Debug)]
pub struct Receiver {
    packet: [u8; 26],
    size: usize,
}

impl View for Receiver {
    type V = Seq<u8>;

    /// The bytes held: a frame begun and not yet complete.
    closed spec fn view(&self) -> Seq<u8> {
        self.packet@.subrange(1, 1 + self.size as int)
    }
}

impl Receiver {
    /// Well-formed: what is held is the start of a frame.
    pub closed spec fn wf(&self) -> bool {
        &&& self.size < SBUS_PACKET_SIZE
        &&& is_partial_frame(self@)
    }

    /// A receiver that holds nothing.
    pub fn new() -> (r: Receiver)
        ensures
            r.wf(),
            r@ == Seq::<u8>::empty(),
    {
        Receiver { packet: [0u8; 26], size: 0 }
    }

    /// Appends `bytes[from..to]` to what is held.
    fn append(&mut self, bytes: &[u8], from: usize, to: usize)
        requires
            from <= to <= bytes.len(),
            old(self).size + (to - from) <= SBUS_PACKET_SIZE,
        ensures
            final(self).size == old(self).size + (to - from),
            final(self)@ == old(self)@ + bytes@.subrange(from as int, to as int),
    {
        let start = self.size;
        let mut j: usize = from;
        while j < to
            invariant
                from <= j <= to <= bytes.len(),
                start + (to - from) <= SBUS_PACKET_SIZE,
                self.size == start,
                start == old(self).size,
                forall|k: int| 1 <= k < 1 + start ==> self.packet@[k] == old(self).packet@[k],
                forall|k: int|
                    from <= k < j ==> self.packet@[1 + start + k - from] == #[trigger] bytes@[k],
            decreases to - j,
        {
            self.packet[1 + start + (j - from)] = bytes[j];
            j += 1;
        }
        self.size = start + (to - from);
        assert(self@ =~= old(self)@ + bytes@.subrange(from as int, to as int));
    }

    /// Drops the first `offset` bytes held.
    fn drop_front(&mut self, offset: usize)
        requires
            old(self).size < SBUS_PACKET_SIZE,
            offset <= old(self).size,
        ensures
            final(self).size == old(self).size - offset,
            final(self)@ == old(self)@.subrange(offset as int, old(self)@.len() as int),
    {
        let n = self.size - offset;
        let mut j: usize = 0;
        while j < n
            invariant
                n == old(self).size - offset,
                offset <= old(self).size < SBUS_PACKET_SIZE,
                self.size == old(self).size,
                forall|k: int|
                    0 <= k < j ==> #[trigger] self.packet@[1 + k] == old(self).packet@[1 + offset + k],
                forall|k: int|
                    j <= k < n ==> #[trigger] self.packet@[1 + offset + k] == old(self).packet@[1
                        + offset + k],
            decreases n - j,
        {
            self.packet[1 + j] = self.packet[1 + offset + j];
            j += 1;
        }
        self.size = n;
        assert forall|k: int| 0 <= k < n implies self@[k] == old(self)@[offset + k] by {
            assert(self.packet@[1 + k] == old(self).packet@[1 + offset + k]);
        }
        assert(self@ =~= old(self)@.subrange(offset as int, old(self)@.len() as int));
    }

    /// The frame assembled in the buffer.
    fn assembled(&self) -> (r: Packet)
        ensures
            r@ == self.packet@.subrange(1, 26),
    {
        let mut frame = [0u8; 25];
        let mut j: usize = 0;
        while j < 25
            invariant
                forall|k: int| 0 <= k < j ==> #[trigger] frame@[k] == self.packet@[1 + k],
            decreases 25 - j,
        {
            frame[j] = self.packet[1 + j];
            j += 1;
        }
        assert(frame@ =~= self.packet@.subrange(1, 26));
        Packet::new(frame)
    }

    /// Holds `bytes[start..]` from its first start marker on, or nothing when it has none.
    fn find_partial_packet(&mut self, bytes: &[u8], start: usize)
        requires
            start <= bytes.len(),
            bytes.len() - start < SBUS_PACKET_SIZE,
        ensures
            final(self).wf(),
            final(self)@ == from_first_start(bytes@.subrange(start as int, bytes.len() as int)),
    {
        let mut i: usize = start;
        while i < bytes.len()
            invariant
                start <= i <= bytes.len(),
                bytes.len() - start < SBUS_PACKET_SIZE,
                from_first_start(bytes@.subrange(i as int, bytes.len() as int)) == from_first_start(
                    bytes@.subrange(start as int, bytes.len() as int),
                ),
            decreases bytes.len() - i,
        {
            let ghost rest = bytes@.subrange(i as int, bytes.len() as int);
            if bytes[i] == SBUS_PACKET_BEGIN {
                self.size = 0;
                self.append(bytes, i, bytes.len());
                assert(self@ =~= rest);
                return;
            }
            assert(rest.drop_first() =~= bytes@.subrange(i + 1, bytes.len() as int));
            i += 1;
        }
        self.size = 0;
        assert(self@ =~= Seq::<u8>::empty());
    }

    /// Tries to complete a frame from the start markers held; see `continuation`. When none
    /// leads anywhere, nothing is held afterwards.
    fn continue_receive(&mut self, bytes: &[u8]) -> (r: Option<Data>)
        requires
            old(self).wf(),
            bytes.len() <= SBUS_PACKET_SIZE,
        ensures
            final(self).wf(),
            match continuation(old(self)@, bytes@, 0) {
                Some(outcome) => {
                    &&& final(self)@ == outcome.0
                    &&& r.is_some() == outcome.1.is_some()
                    &&& r.is_some() ==> r.unwrap().decodes(outcome.1.unwrap())
                    &&& r.is_none() ==> final(self).size > 0
                },
                None => final(self).size == 0 && r.is_none(),
            },
    {
        let ghost held = self@;
        let mut offset: usize = 0;
        while offset < self.size
            invariant
                *self == *old(self),
                self.wf(),
                held == self@,
                bytes.len() <= SBUS_PACKET_SIZE,
                offset <= self.size,
                continuation(held, bytes@, offset as nat) == continuation(held, bytes@, 0),
            decreases self.size - offset,
        {
            if self.packet[1 + offset] == SBUS_PACKET_BEGIN {
                let size = self.size - offset;
                let needed = SBUS_PACKET_SIZE - size;
                let ghost partial = held.subrange(offset as int, held.len() as int);
                if bytes.len() < needed {
                    self.drop_front(offset);
                    self.append(bytes, 0, bytes.len());
                    assert(bytes@.subrange(0, bytes.len() as int) =~= bytes@);
                    return None;
                }
                if is_sbus_packet_end(bytes[needed - 1]) {
                    self.drop_front(offset);
                    self.append(bytes, 0, needed);
                    let ghost frame = partial + bytes@.subrange(0, needed as int);
                    assert(self.packet@.subrange(1, 26) =~= frame);
                    let data = self.assembled().parse();
                    self.find_partial_packet(bytes, needed);
                    return Some(data);
                }
            }
            offset += 1;
        }
        self.size = 0;
        None
    }

    /// Takes the next chunk of the stream, of at most one frame's length, and returns the frame
    /// that it completes, if any.
    pub fn receive(&mut self, bytes: &[u8]) -> (r: Option<Data>)
        requires
            old(self).wf(),
            bytes.len() <= SBUS_PACKET_SIZE,
        ensures
            final(self).wf(),
            final(self)@ == receive_step(old(self)@, bytes@).0,
            r.is_some() == receive_step(old(self)@, bytes@).1.is_some(),
            r.is_some() ==> r.unwrap().decodes(receive_step(old(self)@, bytes@).1.unwrap()),
            r.is_some() ==> is_frame(receive_step(old(self)@, bytes@).1.unwrap()),
    {
        proof {
            lemma_step_emits_frames(self@, bytes@);
        }
        if self.size > 0 {
            let r = self.continue_receive(bytes);
            if r.is_some() || self.size > 0 {
                return r;
            }
        }
        let mut index: usize = 0;
        if bytes.len() == SBUS_PACKET_SIZE {
            if bytes[0] == SBUS_PACKET_BEGIN && is_sbus_packet_end(bytes[SBUS_PACKET_SIZE - 1]) {
                self.append(bytes, 0, SBUS_PACKET_SIZE);
                assert(self.packet@.subrange(1, 26) =~= bytes@);
                let data = self.assembled().parse();
                self.size = 0;
                assert(self@ =~= Seq::<u8>::empty());
                return Some(data);
            }
            index = 1;
        }
        self.find_partial_packet(bytes, index);
        assert(bytes@.drop_first() =~= bytes@.subrange(1, bytes.len() as int));
        assert(bytes@ =~= bytes@.subrange(0, bytes.len() as int));
        None
    }

    /// Number of bytes held.
    pub fn size(&self) -> (r: usize)
        requires
            self.wf(),
        ensures
            r == self@.len(),
    {
        self.size
    }

    /// The buffer: a guard byte, then the bytes held; past them, what is left of the last frame
    /// assembled.
    pub fn packet(&self) -> (r: [u8; 26])
        requires
            self.wf(),
        ensures
            r@.subrange(1, 1 + self@.len() as int) == self@,
    {
        self.packet
    }

    /// Drops what is held, as after a gap in the stream.
    pub fn reset(&mut self)
        requires
            old(self).wf(),
        ensures
            final(self).wf(),
            final(self)@ == Seq::<u8>::empty(),
    {
        self.size = 0;
        assert(self@ =~= Seq::<u8>::empty());
    }
}

} // verus!
