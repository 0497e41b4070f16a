//! The receiver: datagrams in, frames out.
use crate::frame::{required_len, Frame, FrameView};
use crate::transcode::decode::{concat_chunks, FRAME_HEIGHT, FRAME_WIDTH};
use crate::transcode::encode::{chunk_count, lemma_chunk_sizes, lemma_chunks_reassemble, split_into_chunks, CHUNK_SIZE};
use crate::transcode::{chunk_views, concat_data, lemma_wire_roundtrip, wire_decoding, wire_encoding, Chunk, ChunkView};
use vstd::prelude::*;

verus! {

/// How many chunks make up one frame: a `FRAME_WIDTH` by `FRAME_HEIGHT`
/// frame cut into runs of `CHUNK_SIZE` bytes.
pub const CHUNKS_PER_FRAME: usize = 820;

/// The size of the buffer that each datagram is received into.
pub const RECEIVE_BUFFER_SIZE: usize = 1516;

/// What the receiver holds: the chunks gathered for the frame under way,
/// and whether it has stopped for good.
#[verifier::ext_equal]
pub struct ReceiverView {
    pub chunks: Seq<ChunkView>,
    pub halted: bool,
}

/// What the receiver did with one datagram.
#[verifier::ext_equal]
pub enum ReceiveOutcome {
    /// The datagram held a chunk, which was kept for the frame under way.
    Buffered,
    /// The datagram held the last chunk of a frame; here is the frame.
    Delivered(FrameView),
    /// The datagram did not start with an encoded chunk; nothing changed.
    Undecodable,
    /// The receiver has stopped: a full set of chunks did not carry enough
    /// bytes for a frame, now or before.
    Halted,
}

/// A receiver that has seen nothing yet.
pub open spec fn initial_receiver() -> ReceiverView {
    ReceiverView { chunks: Seq::empty(), halted: false }
}

/// What the receiver does with one received buffer: keep the chunk that the
/// buffer starts with, and once `CHUNKS_PER_FRAME` chunks are gathered, glue
/// them into a frame and start over. A stopped receiver stays stopped.
pub open spec fn receive_step(s: ReceiverView, buffer: Seq<u8>) -> (ReceiverView, ReceiveOutcome) {
    if s.halted {
        (s, ReceiveOutcome::Halted)
    } else {
        match wire_decoding(buffer) {
            None => (s, ReceiveOutcome::Undecodable),
            Some(c) => {
                let chunks = s.chunks.push(c);
                if chunks.len() == CHUNKS_PER_FRAME {
                    let data = concat_data(chunks);
                    if required_len(FRAME_WIDTH, FRAME_HEIGHT) <= data.len() {
                        (
                            initial_receiver(),
                            ReceiveOutcome::Delivered(
                                FrameView { width: FRAME_WIDTH, height: FRAME_HEIGHT, data },
                            ),
                        )
                    } else {
                        (ReceiverView { chunks: Seq::empty(), halted: true }, ReceiveOutcome::Halted)
                    }
                } else {
                    (ReceiverView { chunks, halted: false }, ReceiveOutcome::Buffered)
                }
            },
        }
    }
}

/// The state after a series of buffers, and what each of them gave.
pub open spec fn run_receiver(s: ReceiverView, buffers: Seq<Seq<u8>>) -> (ReceiverView, Seq<ReceiveOutcome>)
    decreases buffers.len(),
{
    if buffers.len() == 0 {
        (s, Seq::empty())
    } else {
        let (mid, outcomes) = run_receiver(s, buffers.drop_last());
        let (next, outcome) = receive_step(mid, buffers.last());
        (next, outcomes.push(outcome))
    }
}

/// What the receiver did with one datagram.
#[derive(Debug)]
pub enum ReceiveAction {
    /// The datagram held a chunk, which was kept for the frame under way.
    Buffered,
    /// The datagram held the last chunk of a frame; here is the frame.
    Deliver(Frame),
    /// The datagram did not start with an encoded chunk; nothing changed.
    Undecodable,
    /// The receiver has stopped for good.
    Halted,
}

impl View for ReceiveAction {
    type V = ReceiveOutcome;

    open spec fn view(&self) -> ReceiveOutcome {
        match self {
            ReceiveAction::Buffered => ReceiveOutcome::Buffered,
            ReceiveAction::Deliver(f) => ReceiveOutcome::Delivered(f@),
            ReceiveAction::Undecodable => ReceiveOutcome::Undecodable,
            ReceiveAction::Halted => ReceiveOutcome::Halted,
        }
    }
}

/// Gathers chunks from received datagrams into frames.
#[derive(Debug)]
pub struct FrameReceiver {
    chunks: Vec<Chunk>,
    halted: bool,
}

impl View for FrameReceiver {
    type V = ReceiverView;

    closed spec fn view(&self) -> ReceiverView {
        ReceiverView { chunks: chunk_views(self.chunks@), halted: self.halted }
    }
}

impl FrameReceiver {
    #[verifier::type_invariant]
    closed spec fn gathering(self) -> bool {
        self.chunks@.len() < CHUNKS_PER_FRAME
    }

    /// A receiver that has seen nothing yet.
    pub fn new() -> (r: FrameReceiver)
        ensures
            r@ == initial_receiver(),
    {
        let r = FrameReceiver { chunks: Vec::new(), halted: false };
        proof {
            assert(r@ =~= initial_receiver());
        }
        r
    }

    /// Whether the receiver has stopped for good.
    pub fn is_halted(&self) -> (r: bool)
        ensures
            r == self@.halted,
    {
        self.halted
    }

    /// How many chunks are gathered for the frame under way.
    pub fn pending(&self) -> (r: usize)
        ensures
            r == self@.chunks.len(),
            r < CHUNKS_PER_FRAME,
    {
        proof {
            use_type_invariant(self);
        }
        self.chunks.len()
    }

    /// Takes in one received buffer, as `receive_step` says.
    pub fn on_buffer(&mut self, buffer: &[u8]) -> (r: ReceiveAction)
        ensures
            (final(self)@, r@) == receive_step(old(self)@, buffer@),
    {
        proof {
            use_type_invariant(&*self);
        }
        if self.halted {
            return ReceiveAction::Halted;
        }
        match Chunk::from_wire(buffer) {
            None => ReceiveAction::Undecodable,
            Some(chunk) => {
                let mut chunks: Vec<Chunk> = Vec::new();
                std::mem::swap(&mut chunks, &mut self.chunks);
                let ghost before = chunks@;
                chunks.push(chunk);
                proof {
                    assert(chunk_views(chunks@) =~= chunk_views(before).push(chunk@));
                }
                if chunks.len() == CHUNKS_PER_FRAME {
                    let data = concat_chunks(chunks);
                    match Frame::from_raw(FRAME_WIDTH, FRAME_HEIGHT, data) {
                        Some(frame) => {
                            proof {
                                assert(self@ =~= initial_receiver());
                            }
                            ReceiveAction::Deliver(frame)
                        },
                        None => {
                            self.halted = true;
                            proof {
                                assert(self@ =~= (ReceiverView { chunks: Seq::empty(), halted: true }));
                            }
                            ReceiveAction::Halted
                        },
                    }
                } else {
                    self.chunks = chunks;
                    ReceiveAction::Buffered
                }
            },
        }
    }
}

/// Whether `bytes` begins with `prefix`.
pub open spec fn starts_with(bytes: Seq<u8>, prefix: Seq<u8>) -> bool {
    prefix.len() <= bytes.len() && bytes.subrange(0, prefix.len() as int) == prefix
}

/// A buffer that starts with the encoding of a chunk decodes to that chunk.
proof fn lemma_buffer_decodes(buffer: Seq<u8>, c: ChunkView)
    requires
        c.data.len() <= usize::MAX,
        starts_with(buffer, wire_encoding(c)),
    ensures
        wire_decoding(buffer) == Some(c),
{
    let w = wire_encoding(c);
    let rest = buffer.subrange(w.len() as int, buffer.len() as int);
    assert(buffer =~= w + rest);
    lemma_wire_roundtrip(c, rest);
}

/// A full-size frame is cut into exactly `CHUNKS_PER_FRAME` chunks.
pub proof fn lemma_full_frame_chunk_count()
    ensures
        chunk_count(required_len(FRAME_WIDTH, FRAME_HEIGHT)) == CHUNKS_PER_FRAME,
{
    assert(required_len(FRAME_WIDTH, FRAME_HEIGHT) == 1228800) by (nonlinear_arith);
    assert((1228800int + CHUNK_SIZE - 1) / CHUNK_SIZE as int == 820) by (nonlinear_arith);
}

proof fn lemma_gathering(raw: Seq<u8>, buffers: Seq<Seq<u8>>, k: int)
    requires
        raw.len() == required_len(FRAME_WIDTH, FRAME_HEIGHT),
        buffers.len() == split_into_chunks(raw).len(),
        forall|i: int|
            0 <= i < buffers.len() ==> starts_with(#[trigger] buffers[i], wire_encoding(split_into_chunks(raw)[i])),
        0 <= k < CHUNKS_PER_FRAME,
    ensures
        split_into_chunks(raw).len() == CHUNKS_PER_FRAME,
        run_receiver(initial_receiver(), buffers.take(k)) == (
            ReceiverView { chunks: split_into_chunks(raw).take(k), halted: false },
            Seq::new(k as nat, |i: int| ReceiveOutcome::Buffered),
        ),
    decreases k,
{
    let chunks = split_into_chunks(raw);
    lemma_full_frame_chunk_count();
    if k == 0 {
        assert(buffers.take(0) =~= Seq::<Seq<u8>>::empty());
        assert(chunks.take(0) =~= Seq::<ChunkView>::empty());
        assert(Seq::new(0, |i: int| ReceiveOutcome::Buffered) =~= Seq::<ReceiveOutcome>::empty());
    } else {
        lemma_gathering(raw, buffers, k - 1);
        assert(buffers.take(k).drop_last() =~= buffers.take(k - 1));
        assert(buffers.take(k).last() == buffers[k - 1]);
        lemma_chunk_sizes(raw, k - 1);
        lemma_buffer_decodes(buffers[k - 1], chunks[k - 1]);
        assert(chunks.take(k - 1).push(chunks[k - 1]) =~= chunks.take(k));
        assert(Seq::new((k - 1) as nat, |i: int| ReceiveOutcome::Buffered).push(ReceiveOutcome::Buffered)
            =~= Seq::new(k as nat, |i: int| ReceiveOutcome::Buffered));
    }
}

/// A full-size frame survives the trip: cut it into chunks, send each
/// chunk's encoding, and receive each datagram into a buffer that starts
/// with it; a fresh receiver then keeps the first `CHUNKS_PER_FRAME - 1`
/// chunks, hands back the same frame at the last one, and is fresh again.
pub proof fn lemma_frame_travels(f: FrameView, buffers: Seq<Seq<u8>>)
    requires
        f.width == FRAME_WIDTH,
        f.height == FRAME_HEIGHT,
        f.data.len() == required_len(FRAME_WIDTH, FRAME_HEIGHT),
        buffers.len() == split_into_chunks(f.data).len(),
        forall|i: int|
            0 <= i < buffers.len() ==> starts_with(#[trigger] buffers[i], wire_encoding(split_into_chunks(f.data)[i])),
    ensures
        buffers.len() == CHUNKS_PER_FRAME,
        run_receiver(initial_receiver(), buffers) == (
            initial_receiver(),
            Seq::new(
                CHUNKS_PER_FRAME as nat,
                |i: int|
                    if i + 1 < CHUNKS_PER_FRAME {
                        ReceiveOutcome::Buffered
                    } else {
                        ReceiveOutcome::Delivered(f)
                    },
            ),
        ),
{
    let raw = f.data;
    let chunks = split_into_chunks(raw);
    lemma_full_frame_chunk_count();
    let k = CHUNKS_PER_FRAME - 1;
    lemma_gathering(raw, buffers, k);
    assert(buffers.drop_last() =~= buffers.take(k));
    lemma_chunk_sizes(raw, k);
    lemma_buffer_decodes(buffers[k], chunks[k]);
    assert(chunks.take(k).push(chunks[k]) =~= chunks);
    lemma_chunks_reassemble(raw);
    assert(f =~= (FrameView { width: FRAME_WIDTH, height: FRAME_HEIGHT, data: concat_data(chunks) }));
    assert(Seq::new(k as nat, |i: int| ReceiveOutcome::Buffered).push(ReceiveOutcome::Delivered(f)) =~= Seq::new(
        CHUNKS_PER_FRAME as nat,
        |i: int|
            if i + 1 < CHUNKS_PER_FRAME {
                ReceiveOutcome::Buffered
            } else {
                ReceiveOutcome::Delivered(f)
            },
    ));
}

/// A stopped receiver stays stopped, changes no more and answers every
/// buffer with `Halted`.
pub proof fn lemma_halted_stays(s: ReceiverView, buffers: Seq<Seq<u8>>)
    requires
        s.halted,
    ensures
        run_receiver(s, buffers).0 == s,
        run_receiver(s, buffers).1 == Seq::new(buffers.len(), |i: int| ReceiveOutcome::Halted),
    decreases buffers.len(),
{
    if buffers.len() == 0 {
        assert(Seq::new(0, |i: int| ReceiveOutcome::Halted) =~= Seq::<ReceiveOutcome>::empty());
    } else {
        lemma_halted_stays(s, buffers.drop_last());
        assert(Seq::new((buffers.len() - 1) as nat, |i: int| ReceiveOutcome::Halted).push(ReceiveOutcome::Halted)
            =~= Seq::new(buffers.len(), |i: int| ReceiveOutcome::Halted));
    }
}

/// Every datagram that the sender makes for a chunk of a frame fits the
/// buffer that the receiver reads it into.
pub proof fn lemma_datagrams_fit(raw: Seq<u8>, i: int)
    requires
        raw.len() <= usize::MAX,
        0 <= i < split_into_chunks(raw).len(),
    ensures
        wire_encoding(split_into_chunks(raw)[i]).len() <= RECEIVE_BUFFER_SIZE,
{
    lemma_chunk_sizes(raw, i);
}

/// The frames among a series of outcomes, in order.
pub open spec fn delivered_frames(outcomes: Seq<ReceiveOutcome>) -> Seq<FrameView>
    decreases outcomes.len(),
{
    if outcomes.len() == 0 {
        Seq::empty()
    } else {
        let earlier = delivered_frames(outcomes.drop_last());
        match outcomes.last() {
            ReceiveOutcome::Delivered(f) => earlier.push(f),
            _ => earlier,
        }
    }
}

/// The buffers that start with an encoded chunk, in order.
pub open spec fn decodable_only(buffers: Seq<Seq<u8>>) -> Seq<Seq<u8>> {
    buffers.filter(|b: Seq<u8>| wire_decoding(b) is Some)
}

proof fn lemma_delivered_push(outcomes: Seq<ReceiveOutcome>, o: ReceiveOutcome)
    ensures
        delivered_frames(outcomes.push(o)) == match o {
            ReceiveOutcome::Delivered(f) => delivered_frames(outcomes).push(f),
            _ => delivered_frames(outcomes),
        },
{
    assert(outcomes.push(o).drop_last() =~= outcomes);
}

proof fn lemma_run_push(s: ReceiverView, buffers: Seq<Seq<u8>>, b: Seq<u8>)
    ensures
        run_receiver(s, buffers.push(b)) == (
            receive_step(run_receiver(s, buffers).0, b).0,
            run_receiver(s, buffers).1.push(receive_step(run_receiver(s, buffers).0, b).1),
        ),
{
    assert(buffers.push(b).drop_last() =~= buffers);
}

/// Receiving `a` and then `b` is receiving `a + b`.
pub proof fn lemma_run_append(s: ReceiverView, a: Seq<Seq<u8>>, b: Seq<Seq<u8>>)
    ensures
        run_receiver(s, a + b) == (
            run_receiver(run_receiver(s, a).0, b).0,
            run_receiver(s, a).1 + run_receiver(run_receiver(s, a).0, b).1,
        ),
    decreases b.len(),
{
    if b.len() == 0 {
        assert(a + b =~= a);
        assert(run_receiver(s, a).1 + Seq::<ReceiveOutcome>::empty() =~= run_receiver(s, a).1);
    } else {
        lemma_run_append(s, a, b.drop_last());
        assert((a + b).drop_last() =~= a + b.drop_last());
        assert((a + b).last() == b.last());
        let mid = run_receiver(s, a).0;
        let (m2, o2) = run_receiver(mid, b.drop_last());
        let (next, o) = receive_step(m2, b.last());
        assert(run_receiver(s, a).1 + o2.push(o) =~= (run_receiver(s, a).1 + o2).push(o));
    }
}

/// The frames of two series of outcomes are those of the first, then those
/// of the second.
pub proof fn lemma_delivered_append(a: Seq<ReceiveOutcome>, b: Seq<ReceiveOutcome>)
    ensures
        delivered_frames(a + b) == delivered_frames(a) + delivered_frames(b),
    decreases b.len(),
{
    if b.len() == 0 {
        assert(a + b =~= a);
        assert(delivered_frames(a) + Seq::<FrameView>::empty() =~= delivered_frames(a));
    } else {
        lemma_delivered_append(a, b.drop_last());
        assert((a + b).drop_last() =~= a + b.drop_last());
        assert((a + b).last() == b.last());
        match b.last() {
            ReceiveOutcome::Delivered(f) => {
                assert(delivered_frames(a) + delivered_frames(b.drop_last()).push(f) =~= (delivered_frames(a)
                    + delivered_frames(b.drop_last())).push(f));
            },
            _ => {},
        }
    }
}

/// Buffers that do not start with an encoded chunk change nothing, wherever
/// they come: the receiver ends in the same state and hands out the same
/// frames as on the decodable buffers alone.
pub proof fn lemma_undecodable_ignored(s: ReceiverView, buffers: Seq<Seq<u8>>)
    ensures
        run_receiver(s, buffers).0 == run_receiver(s, decodable_only(buffers)).0,
        delivered_frames(run_receiver(s, buffers).1) == delivered_frames(
            run_receiver(s, decodable_only(buffers)).1,
        ),
    decreases buffers.len(),
{
    reveal(Seq::filter);
    let pred = |b: Seq<u8>| wire_decoding(b) is Some;
    if buffers.len() == 0 {
        assert(decodable_only(buffers) =~= buffers);
    } else {
        let rest = buffers.drop_last();
        let b = buffers.last();
        lemma_undecodable_ignored(s, rest);
        assert(buffers =~= rest.push(b));
        lemma_run_push(s, rest, b);
        assert(decodable_only(buffers) == if pred(b) {
            decodable_only(rest).push(b)
        } else {
            decodable_only(rest)
        });
        let (m, o) = receive_step(run_receiver(s, rest).0, b);
        lemma_delivered_push(run_receiver(s, rest).1, o);
        if pred(b) {
            lemma_run_push(s, decodable_only(rest), b);
            lemma_delivered_push(run_receiver(s, decodable_only(rest)).1, o);
        }
    }
}

/// Counting over any series of buffers from a fresh receiver that has not
/// stopped: every `CHUNKS_PER_FRAME` decodable buffers make one frame, and
/// the chunks of the frame under way are the rest.
pub proof fn lemma_delivery_count(buffers: Seq<Seq<u8>>)
    requires
        !run_receiver(initial_receiver(), buffers).0.halted,
    ensures
        delivered_frames(run_receiver(initial_receiver(), buffers).1).len() * CHUNKS_PER_FRAME
            + run_receiver(initial_receiver(), buffers).0.chunks.len() == decodable_only(buffers).len(),
        run_receiver(initial_receiver(), buffers).0.chunks.len() < CHUNKS_PER_FRAME,
        delivered_frames(run_receiver(initial_receiver(), buffers).1).len() == decodable_only(buffers).len() as int
            / CHUNKS_PER_FRAME as int,
        run_receiver(initial_receiver(), buffers).0.chunks.len() == decodable_only(buffers).len() as int
            % CHUNKS_PER_FRAME as int,
    decreases buffers.len(),
{
    reveal(Seq::filter);
    let pred = |b: Seq<u8>| wire_decoding(b) is Some;
    if buffers.len() == 0 {
        assert(decodable_only(buffers) =~= buffers);
    } else {
        let rest = buffers.drop_last();
        let b = buffers.last();
        assert(buffers =~= rest.push(b));
        lemma_run_push(initial_receiver(), rest, b);
        let mid = run_receiver(initial_receiver(), rest).0;
        if mid.halted {
            assert(receive_step(mid, b).0.halted);
        }
        lemma_delivery_count(rest);
        lemma_delivered_push(run_receiver(initial_receiver(), rest).1, receive_step(mid, b).1);
        assert(decodable_only(buffers) == if pred(b) {
            decodable_only(rest).push(b)
        } else {
            decodable_only(rest)
        });
    }
    let d = delivered_frames(run_receiver(initial_receiver(), buffers).1).len() as int;
    let r = run_receiver(initial_receiver(), buffers).0.chunks.len() as int;
    let n = decodable_only(buffers).len() as int;
    assert(d == n / 820 && r == n % 820) by (nonlinear_arith)
        requires
            d * 820 + r == n,
            0 <= r < 820,
            0 <= d,
    ;
}

/// A receiver answers a series of `k` buffers that each gave `Buffered`
/// with no frame.
proof fn lemma_no_frames_while_buffering(k: nat)
    ensures
        delivered_frames(Seq::new(k, |i: int| ReceiveOutcome::Buffered)) == Seq::<FrameView>::empty(),
    decreases k,
{
    if k > 0 {
        lemma_no_frames_while_buffering((k - 1) as nat);
        assert(Seq::new(k, |i: int| ReceiveOutcome::Buffered).drop_last() =~= Seq::new(
            (k - 1) as nat,
            |i: int| ReceiveOutcome::Buffered,
        ));
    }
}

/// The buffers that carry one full-size frame: one per chunk, each starting
/// with that chunk's encoding.
pub open spec fn carries_frame(f: FrameView, buffers: Seq<Seq<u8>>) -> bool {
    &&& f.width == FRAME_WIDTH
    &&& f.height == FRAME_HEIGHT
    &&& f.data.len() == required_len(FRAME_WIDTH, FRAME_HEIGHT)
    &&& buffers.len() == split_into_chunks(f.data).len()
    &&& forall|i: int|
        0 <= i < buffers.len() ==> starts_with(#[trigger] buffers[i], wire_encoding(split_into_chunks(f.data)[i]))
}

/// Groups of buffers, one group after the other.
pub open spec fn concat_groups(groups: Seq<Seq<Seq<u8>>>) -> Seq<Seq<u8>>
    decreases groups.len(),
{
    if groups.len() == 0 {
        Seq::empty()
    } else {
        concat_groups(groups.drop_last()) + groups.last()
    }
}

/// A stream of full-size frames survives the trip: when each group of
/// buffers carries one frame, a fresh receiver hands out exactly those
/// frames, in order, and is fresh again at the end.
pub proof fn lemma_stream_travels(frames: Seq<FrameView>, groups: Seq<Seq<Seq<u8>>>)
    requires
        frames.len() == groups.len(),
        forall|k: int| 0 <= k < groups.len() ==> #[trigger] carries_frame(frames[k], groups[k]),
    ensures
        run_receiver(initial_receiver(), concat_groups(groups)).0 == initial_receiver(),
        delivered_frames(run_receiver(initial_receiver(), concat_groups(groups)).1) == frames,
    decreases groups.len(),
{
    if groups.len() == 0 {
        assert(frames =~= Seq::<FrameView>::empty());
    } else {
        let n = groups.len() - 1;
        let f = frames[n];
        assert(carries_frame(frames[n], groups[n]));
        lemma_stream_travels(frames.drop_last(), groups.drop_last());
        lemma_run_append(initial_receiver(), concat_groups(groups.drop_last()), groups.last());
        lemma_frame_travels(f, groups[n]);
        let outs = run_receiver(initial_receiver(), groups[n]).1;
        let k = (CHUNKS_PER_FRAME - 1) as nat;
        assert(outs =~= Seq::new(k, |i: int| ReceiveOutcome::Buffered).push(ReceiveOutcome::Delivered(f)));
        lemma_no_frames_while_buffering(k);
        assert(Seq::new(k, |i: int| ReceiveOutcome::Buffered).push(ReceiveOutcome::Delivered(f)).drop_last()
            =~= Seq::new(k, |i: int| ReceiveOutcome::Buffered));
        assert(delivered_frames(outs) =~= seq![f]);
        lemma_delivered_append(run_receiver(initial_receiver(), concat_groups(groups.drop_last())).1, outs);
        assert(frames.drop_last().push(f) =~= frames);
        assert(frames.drop_last() + seq![f] =~= frames);
    }
}

/// A running receiver keeps every chunk that it can decode, whatever the
/// chunk's index, until a whole frame's worth is gathered.
pub proof fn lemma_keeps_any_chunk(s: ReceiverView, b: Seq<u8>, c: ChunkView)
    requires
        !s.halted,
        wire_decoding(b) == Some(c),
        s.chunks.len() + 1 < CHUNKS_PER_FRAME,
    ensures
        receive_step(s, b) == (ReceiverView { chunks: s.chunks.push(c), halted: false }, ReceiveOutcome::Buffered),
{
}

/// At the last chunk of a frame's worth, the receiver hands out the bytes
/// of all gathered chunks in arrival order as a `FRAME_WIDTH` by
/// `FRAME_HEIGHT` frame and starts over, whatever the chunks' indices.
pub proof fn lemma_delivers_at_full_count(s: ReceiverView, b: Seq<u8>, c: ChunkView)
    requires
        !s.halted,
        wire_decoding(b) == Some(c),
        s.chunks.len() + 1 == CHUNKS_PER_FRAME,
        required_len(FRAME_WIDTH, FRAME_HEIGHT) <= concat_data(s.chunks.push(c)).len(),
    ensures
        receive_step(s, b) == (
            ReceiverView { chunks: Seq::empty(), halted: false },
            ReceiveOutcome::Delivered(
                FrameView { width: FRAME_WIDTH, height: FRAME_HEIGHT, data: concat_data(s.chunks.push(c)) },
            ),
        ),
{
}

/// A running receiver stops only when a whole frame's worth of decoded
/// chunks carries fewer bytes than a frame needs.
pub proof fn lemma_halts_only_on_short_frame(s: ReceiverView, b: Seq<u8>)
    requires
        !s.halted,
        receive_step(s, b).0.halted,
    ensures
        wire_decoding(b) is Some,
        s.chunks.len() + 1 == CHUNKS_PER_FRAME,
        concat_data(s.chunks.push(wire_decoding(b).unwrap())).len() < required_len(FRAME_WIDTH, FRAME_HEIGHT),
{
}

/// An undecodable buffer changes nothing.
pub proof fn lemma_undecodable_changes_nothing(s: ReceiverView, b: Seq<u8>)
    requires
        wire_decoding(b) is None,
    ensures
        receive_step(s, b).0 == s,
        receive_step(s, b).1 == (if s.halted { ReceiveOutcome::Halted } else { ReceiveOutcome::Undecodable }),
{
}

} // verus!
