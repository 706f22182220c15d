//! Framing on the wire: reliable-stream frames, input datagrams and the
//! small datagrams of the session.
//!
//! - reliable stream: `[type u16][len u32][bytes]`
//! - snapshot datagram: `[0][snapshot]`
//! - ack datagram: `[1][tick u32][send seq u32]`
//! - input datagram: `[2][count u8]` then per entry `[seq u32][len u16][bytes]`
//! - view datagram: `[3][eye f32x3][forward f32x3]`

use std::collections::VecDeque;

use vstd::prelude::*;

use crate::snapshot::{cat, cat_push};
use crate::text::copy_bytes;
use crate::wire::{
    cut, get16, get32, le16, le16_round_trip, le32, le32_round_trip, put16, put32, put_bytes,
    un16, un32,
};

verus! {

/// First byte of a snapshot datagram (server to client).
pub const DGRAM_SNAPSHOT: u8 = 0;

/// First byte of an ack datagram (client to server).
pub const DGRAM_ACK: u8 = 1;

/// First byte of an input datagram (client to server).
pub const DGRAM_INPUT: u8 = 2;

/// First byte of a view-pose datagram (client to server): presentation
/// metadata, newest wins, never acked.
pub const DGRAM_VIEW: u8 = 3;

/// How many recent inputs ride along in every input datagram. Up to seven
/// consecutive lost packets cost nothing; beyond that the gap is skipped
/// (input is ephemeral — newest wins).
pub const INPUT_REDUNDANCY: usize = 8;

/// One frame of the reliable stream.
#[derive(Debug)]
pub struct Frame {
    pub ty: u16,
    pub payload: Vec<u8>,
}

/// A frame as plain values.
#[verifier::ext_equal]
pub struct FrameView {
    pub ty: u16,
    pub payload: Seq<u8>,
}

impl View for Frame {
    type V = FrameView;

    open spec fn view(&self) -> FrameView {
        FrameView { ty: self.ty, payload: self.payload@ }
    }
}

/// Frames as plain values.
pub open spec fn frame_views(frames: Seq<Frame>) -> Seq<FrameView> {
    frames.map_values(|f: Frame| f@)
}

/// The bytes of a frame.
pub open spec fn frame_bytes(f: FrameView) -> Seq<u8> {
    le16(f.ty) + le32(f.payload.len() as u32) + f.payload
}

/// The frames a stream holds from its front, and the incomplete rest.
pub open spec fn frames_of(buf: Seq<u8>) -> (Seq<FrameView>, Seq<u8>)
    decreases buf.len(),
{
    if buf.len() < 6 {
        (Seq::empty(), buf)
    } else {
        let len = un32(buf.subrange(2, 6)) as int;
        if buf.len() - 6 < len {
            (Seq::empty(), buf)
        } else {
            let rest = frames_of(buf.skip(6 + len));
            (
                seq![
                    FrameView { ty: un16(buf.take(2)), payload: buf.subrange(6, 6 + len) },
                ] + rest.0,
                rest.1,
            )
        }
    }
}

/// Append a frame.
pub fn frame_write(out: &mut Vec<u8>, ty: u16, payload: &[u8])
    ensures
        final(out)@ == old(out)@ + frame_bytes(FrameView { ty, payload: payload@ }),
{
    put16(out, ty);
    put32(out, payload.len() as u32);
    put_bytes(out, payload);
    assert(out@ =~= old(out)@ + frame_bytes(FrameView { ty, payload: payload@ }));
}

/// Pop complete frames off the front; the incomplete rest stays.
pub fn frames_parse(buf: &mut Vec<u8>) -> (r: Vec<Frame>)
    ensures
        (frame_views(r@), final(buf)@) == frames_of(old(buf)@),
{
    let ghost data = buf@;
    let mut frames: Vec<Frame> = Vec::new();
    let mut off: usize = 0;
    let n: usize = buf.len();
    let mut stuck: bool = false;
    proof {
        assert(data.skip(0) =~= data);
        assert(frame_views(frames@) + frames_of(data).0 =~= frames_of(data).0);
    }
    while !stuck && n - off >= 6
        invariant
            buf@ == data,
            n == data.len(),
            off <= n,
            frames_of(data) == (
                frame_views(frames@) + frames_of(data.skip(off as int)).0,
                frames_of(data.skip(off as int)).1,
            ),
            stuck ==> frames_of(data.skip(off as int)) == (
                Seq::<FrameView>::empty(),
                data.skip(off as int),
            ),
        decreases n - off, (if stuck { 0int } else { 1int }),
    {
        let ghost cur = data.skip(off as int);
        let ty: u16 = get16(buf.as_slice(), off);
        let len: usize = get32(buf.as_slice(), off + 2) as usize;
        proof {
            assert(cur.take(2) =~= data.subrange(off as int, off + 2));
            assert(cur.subrange(2, 6) =~= data.subrange(off + 2, off + 6));
        }
        if n - off - 6 < len {
            stuck = true;
        } else {
            let payload: Vec<u8> = cut(buf.as_slice(), off + 6, off + 6 + len);
            let ghost before = frame_views(frames@);
            frames.push(Frame { ty, payload });
            proof {
                assert(payload@ =~= cur.subrange(6, 6 + len));
                assert(cur.skip(6 + len) =~= data.skip(off + 6 + len));
                let f = FrameView { ty, payload: payload@ };
                assert(frame_views(frames@) =~= before.push(f));
                assert(before + frames_of(cur).0 =~= frame_views(frames@) + frames_of(
                    data.skip(off + 6 + len),
                ).0);
            }
            off = off + 6 + len;
        }
    }
    let rest: Vec<u8> = cut(buf.as_slice(), off, n);
    proof {
        assert(rest@ =~= data.skip(off as int));
        assert(frame_views(frames@) + frames_of(data.skip(off as int)).0 =~= frame_views(frames@));
    }
    *buf = rest;
    frames
}

/// A frame written is the first one read.
pub proof fn frame_reads_back(f: FrameView, rest: Seq<u8>)
    requires
        f.payload.len() <= u32::MAX,
    ensures
        frames_of(frame_bytes(f) + rest) == (seq![f] + frames_of(rest).0, frames_of(rest).1),
{
    let buf = frame_bytes(f) + rest;
    let len = f.payload.len() as int;
    le16_round_trip(f.ty);
    le32_round_trip(f.payload.len() as u32);
    assert(buf.take(2) =~= le16(f.ty));
    assert(buf.subrange(2, 6) =~= le32(f.payload.len() as u32));
    assert(buf.subrange(6, 6 + len) =~= f.payload);
    assert(buf.skip(6 + len) =~= rest);
}

/// Any run of frames written one after another is read back whole, in order
/// and with nothing left.
pub proof fn frames_read_back(frames: Seq<FrameView>)
    requires
        forall|i: int| 0 <= i < frames.len() ==> (#[trigger] frames[i]).payload.len() <= u32::MAX,
    ensures
        frames_of(cat(frames.map_values(|f: FrameView| frame_bytes(f)))) == (
            frames,
            Seq::<u8>::empty(),
        ),
    decreases frames.len(),
{
    let parts = frames.map_values(|f: FrameView| frame_bytes(f));
    if frames.len() == 0 {
        assert(frames =~= Seq::empty());
    } else {
        let tail = frames.drop_first();
        let rest = tail.map_values(|f: FrameView| frame_bytes(f));
        frames_read_back(tail);
        assert(parts.drop_first() =~= rest);
        assert(cat(parts) == frame_bytes(frames[0]) + cat(rest));
        frame_reads_back(frames[0], cat(rest));
        assert(seq![frames[0]] + tail =~= frames);
    }
}

/// Where the stream is cut into deliveries makes no difference: reading what
/// came, then what is left with the next delivery, gives the frames of the
/// whole.
pub proof fn frames_survive_any_cut(a: Seq<u8>, b: Seq<u8>)
    ensures
        ({
            let first = frames_of(a);
            let second = frames_of(first.1 + b);
            frames_of(a + b) == (first.0 + second.0, second.1)
        }),
    decreases a.len(),
{
    let first = frames_of(a);
    let second = frames_of(first.1 + b);
    if a.len() < 6 {
        assert(first.0 + second.0 =~= second.0);
    } else {
        let len = un32(a.subrange(2, 6)) as int;
        assert((a + b).subrange(2, 6) =~= a.subrange(2, 6));
        assert((a + b).take(2) =~= a.take(2));
        if a.len() - 6 < len {
            assert(first.0 + second.0 =~= second.0);
        } else {
            let tail = a.skip(6 + len);
            frames_survive_any_cut(tail, b);
            assert((a + b).skip(6 + len) =~= tail + b);
            assert((a + b).subrange(6, 6 + len) =~= a.subrange(6, 6 + len));
            let f = FrameView { ty: un16(a.take(2)), payload: a.subrange(6, 6 + len) };
            let inner = frames_of(tail);
            assert(seq![f] + (inner.0 + second.0) =~= (seq![f] + inner.0) + second.0);
        }
    }
}

// --- inputs -----------------------------------------------------------------

/// One control input: its sequence and payload.
pub struct Input {
    pub seq: u32,
    pub payload: Vec<u8>,
}

/// Inputs as plain values.
pub open spec fn input_views(inputs: Seq<Input>) -> Seq<(u32, Seq<u8>)> {
    inputs.map_values(|i: Input| (i.seq, i.payload@))
}

/// `[seq u32][len u16][payload]`.
pub open spec fn input_part(i: (u32, Seq<u8>)) -> Seq<u8> {
    le32(i.0) + le16(i.1.len() as u16) + i.1
}

/// The body of an input datagram: count, then the entries.
pub open spec fn inputs_bytes(inputs: Seq<(u32, Seq<u8>)>) -> Seq<u8> {
    seq![inputs.len() as u8] + cat(inputs.map_values(|i: (u32, Seq<u8>)| input_part(i)))
}

/// Up to `n` inputs off the front that are newer than `last` and than each
/// other, and the newest sequence seen. A short entry ends the list.
pub open spec fn inputs_from(data: Seq<u8>, n: nat, last: u32) -> (Seq<(u32, Seq<u8>)>, u32)
    decreases n,
{
    if n == 0 || data.len() < 6 {
        (Seq::empty(), last)
    } else {
        let seq = un32(data.take(4));
        let len = un16(data.subrange(4, 6)) as int;
        if data.len() < 6 + len {
            (Seq::empty(), last)
        } else {
            let rest = inputs_from(
                data.skip(6 + len),
                (n - 1) as nat,
                if seq > last {
                    seq
                } else {
                    last
                },
            );
            if seq > last {
                (seq![(seq, data.subrange(6, 6 + len))] + rest.0, rest.1)
            } else {
                rest
            }
        }
    }
}

/// The new inputs of an input datagram's body.
pub open spec fn inputs_of(data: Seq<u8>, last: u32) -> (Seq<(u32, Seq<u8>)>, u32) {
    if data.len() == 0 {
        (Seq::empty(), last)
    } else {
        inputs_from(data.skip(1), data[0] as nat, last)
    }
}

/// Parse an input datagram body. Entries at or below the peer's last seen
/// sequence are redundant copies — skipped — so the output is in order and
/// gap-tolerant without retransmits.
pub fn inputs_parse(data: &[u8], last: &mut u32) -> (r: Vec<Input>)
    ensures
        (input_views(r@), *final(last)) == inputs_of(data@, *old(last)),
{
    let mut out: Vec<Input> = Vec::new();
    let n: usize = data.len();
    if n == 0 {
        assert(input_views(out@) =~= Seq::<(u32, Seq<u8>)>::empty());
        return out;
    }
    let count: u8 = data[0];
    let mut off: usize = 1;
    let mut i: u8 = 0;
    let mut short: bool = false;
    let ghost all = inputs_of(data@, *last);
    proof {
        assert(input_views(out@) + all.0 =~= all.0);
    }
    while i < count && !short
        invariant
            n == data@.len(),
            1 <= off <= n,
            i <= count,
            all == inputs_of(data@, *old(last)),
            all == (
                input_views(out@) + inputs_from(
                    data@.skip(off as int),
                    (count - i) as nat,
                    *last,
                ).0,
                inputs_from(data@.skip(off as int), (count - i) as nat, *last).1,
            ),
            short ==> inputs_from(data@.skip(off as int), (count - i) as nat, *last) == (
                Seq::<(u32, Seq<u8>)>::empty(),
                *last,
            ),
        decreases count - i, (if short { 0int } else { 1int }),
    {
        let ghost cur = data@.skip(off as int);
        if n - off < 6 {
            short = true;
        } else {
            let seq: u32 = get32(data, off);
            let len: usize = get16(data, off + 4) as usize;
            proof {
                assert(cur.take(4) =~= data@.subrange(off as int, off + 4));
                assert(cur.subrange(4, 6) =~= data@.subrange(off + 4, off + 6));
            }
            if n - off < 6 + len {
                short = true;
            } else {
                let ghost before = input_views(out@);
                let ghost seen = *last;
                let ghost rest = inputs_from(
                    data@.skip(off + 6 + len),
                    (count - i - 1) as nat,
                    if seq > seen {
                        seq
                    } else {
                        seen
                    },
                );
                proof {
                    assert(cur.skip(6 + len) =~= data@.skip(off + 6 + len));
                }
                if seq > *last {
                    *last = seq;
                    let payload: Vec<u8> = cut(data, off + 6, off + 6 + len);
                    out.push(Input { seq, payload });
                    proof {
                        assert(payload@ =~= cur.subrange(6, 6 + len));
                        assert(input_views(out@) =~= before.push((seq, payload@)));
                        assert(before + (seq![(seq, payload@)] + rest.0) =~= input_views(out@)
                            + rest.0);
                    }
                }
                off = off + 6 + len;
                i += 1;
            }
        }
    }
    proof {
        assert(input_views(out@) + Seq::<(u32, Seq<u8>)>::empty() =~= input_views(out@));
    }
    out
}

/// The series the server sees is in order and new: sequences rise strictly
/// past the last one seen, whatever datagram arrives.
pub proof fn inputs_arrive_in_order(data: Seq<u8>, n: nat, last: u32)
    ensures
        ({
            let out = inputs_from(data, n, last);
            &&& forall|k: int| 0 <= k < out.0.len() ==> (#[trigger] out.0[k]).0 > last
            &&& forall|j: int, k: int|
                0 <= j < k < out.0.len() ==> (#[trigger] out.0[j]).0 < (#[trigger] out.0[k]).0
            &&& out.1 >= last
            &&& out.0.len() > 0 ==> out.1 == out.0.last().0
            &&& out.0.len() == 0 ==> out.1 == last
        }),
    decreases n,
{
    if n > 0 && data.len() >= 6 {
        let seq = un32(data.take(4));
        let len = un16(data.subrange(4, 6)) as int;
        if data.len() >= 6 + len {
            let next = if seq > last {
                seq
            } else {
                last
            };
            inputs_arrive_in_order(data.skip(6 + len), (n - 1) as nat, next);
            let rest = inputs_from(data.skip(6 + len), (n - 1) as nat, next);
            let out = inputs_from(data, n, last);
            if seq > last {
                assert(out.0[0].0 == seq);
                assert forall|k: int| 1 <= k < out.0.len() implies (#[trigger] out.0[k])
                    == rest.0[k - 1] by {
                }
            }
        }
    }
}

/// The inputs of a run newer than `last`.
pub open spec fn newer_inputs(inputs: Seq<(u32, Seq<u8>)>, last: u32) -> Seq<(u32, Seq<u8>)>
    decreases inputs.len(),
{
    if inputs.len() == 0 {
        inputs
    } else if inputs[0].0 > last {
        inputs
    } else {
        newer_inputs(inputs.drop_first(), last)
    }
}

/// A sender's run of inputs: ascending, sizes that fit.
pub open spec fn input_run(inputs: Seq<(u32, Seq<u8>)>) -> bool {
    &&& inputs.len() <= u8::MAX
    &&& forall|k: int| 0 <= k < inputs.len() ==> (#[trigger] inputs[k]).1.len() <= u16::MAX
    &&& forall|j: int, k: int|
        0 <= j < k < inputs.len() ==> (#[trigger] inputs[j]).0 < (#[trigger] inputs[k]).0
}

/// Redundancy covers losses: of a datagram's run, the server takes exactly
/// the inputs it has not seen.
pub proof fn redundant_inputs_fill_the_gap(inputs: Seq<(u32, Seq<u8>)>, last: u32)
    requires
        input_run(inputs),
    ensures
        inputs_of(inputs_bytes(inputs), last).0 == newer_inputs(inputs, last),
{
    let data = inputs_bytes(inputs);
    assert(data.skip(1) =~= cat(inputs.map_values(|i: (u32, Seq<u8>)| input_part(i))));
    input_run_reads_back(inputs, last);
}

/// Reading a run's entries.
proof fn input_run_reads_back(inputs: Seq<(u32, Seq<u8>)>, last: u32)
    requires
        input_run(inputs),
    ensures
        inputs_from(
            cat(inputs.map_values(|i: (u32, Seq<u8>)| input_part(i))),
            inputs.len(),
            last,
        ).0 == newer_inputs(inputs, last),
    decreases inputs.len(),
{
    let f = |i: (u32, Seq<u8>)| input_part(i);
    if inputs.len() > 0 {
        let tail = inputs.drop_first();
        let head = inputs[0];
        assert(inputs.map_values(f).drop_first() =~= tail.map_values(f));
        let rest = cat(tail.map_values(f));
        let data = cat(inputs.map_values(f));
        assert(data =~= input_part(head) + rest);
        le32_round_trip(head.0);
        le16_round_trip(head.1.len() as u16);
        assert(data.take(4) =~= le32(head.0));
        assert(data.subrange(4, 6) =~= le16(head.1.len() as u16));
        assert(data.subrange(6, 6 + head.1.len() as int) =~= head.1);
        assert(data.skip(6 + head.1.len() as int) =~= rest);
        assert(input_run(tail)) by {
            assert forall|k: int| 0 <= k < tail.len() implies (#[trigger] tail[k]).1.len()
                <= u16::MAX by {
                assert(tail[k] == inputs[k + 1]);
            }
            assert forall|j: int, k: int| 0 <= j < k < tail.len() implies (#[trigger] tail[j]).0 < (
            #[trigger] tail[k]).0 by {
                assert(tail[j] == inputs[j + 1] && tail[k] == inputs[k + 1]);
            }
        }
        if head.0 > last {
            input_run_reads_back(tail, head.0);
            if tail.len() > 0 {
                assert(inputs[0].0 < inputs[1].0);
                assert(tail[0] == inputs[1]);
            }
            assert(newer_inputs(tail, head.0) =~= tail);
            assert(seq![(head.0, head.1)] + tail =~= inputs);
        } else {
            input_run_reads_back(tail, last);
        }
    }
}

/// The client's side of the input series: the newest sequence and the last
/// few inputs, which ride along redundantly.
pub struct InputRing {
    seq: u32,
    recent: VecDeque<Input>,
}

/// The ring as contracts see it.
#[verifier::ext_equal]
pub struct RingView {
    pub seq: u32,
    pub recent: Seq<(u32, Seq<u8>)>,
}

impl View for InputRing {
    type V = RingView;

    closed spec fn view(&self) -> RingView {
        RingView { seq: self.seq, recent: input_views(self.recent@) }
    }
}

/// The ring after one more input.
pub open spec fn ring_pushed(r: RingView, payload: Seq<u8>) -> RingView {
    let seq = (r.seq + 1) as u32;
    let all = r.recent.push((seq, payload));
    RingView {
        seq,
        recent: if all.len() > INPUT_REDUNDANCY {
            all.drop_first()
        } else {
            all
        },
    }
}

/// The ring holds an ascending run that ends at its newest sequence.
pub open spec fn ring_sound(r: RingView) -> bool {
    &&& input_run(r.recent)
    &&& r.recent.len() <= INPUT_REDUNDANCY
    &&& forall|k: int| 0 <= k < r.recent.len() ==> (#[trigger] r.recent[k]).0 <= r.seq
}

impl InputRing {
    /// No input sent yet.
    pub fn new() -> (r: Self)
        ensures
            r@ == (RingView { seq: 0, recent: Seq::empty() }),
            ring_sound(r@),
    {
        let r = InputRing { seq: 0, recent: VecDeque::new() };
        assert(r@ =~= RingView { seq: 0, recent: Seq::empty() });
        r
    }

    /// Take the next input: assigns its sequence and gives the datagram to
    /// send — the last few inputs, oldest first.
    pub fn input_send(&mut self, payload: &[u8]) -> (r: (u32, Vec<u8>))
        requires
            ring_sound(old(self)@),
            old(self)@.seq < u32::MAX,
            payload@.len() <= u16::MAX,
        ensures
            final(self)@ == ring_pushed(old(self)@, payload@),
            ring_sound(final(self)@),
            r.0 == final(self)@.seq,
            r.1@ == seq![DGRAM_INPUT] + inputs_bytes(final(self)@.recent),
    {
        let ghost before = self@;
        self.seq = self.seq + 1;
        let body: Vec<u8> = copy_bytes(payload);
        self.recent.push_back(Input { seq: self.seq, payload: body });
        proof {
            assert(input_views(self.recent@) =~= before.recent.push((self.seq, payload@)));
        }
        if self.recent.len() > INPUT_REDUNDANCY {
            let ghost full = input_views(self.recent@);
            let _ = self.recent.pop_front();
            assert(input_views(self.recent@) =~= full.drop_first());
        }
        proof {
            assert(self@ =~= ring_pushed(before, payload@));
            let now = self@.recent;
            let all = before.recent.push((self.seq, payload@));
            let d: int = if all.len() > INPUT_REDUNDANCY { 1 } else { 0 };
            assert forall|k: int| 0 <= k < now.len() implies #[trigger] now[k] == all[k + d] by {
            }
            assert forall|j: int, k: int| 0 <= j < k < now.len() implies (#[trigger] now[j]).0 < (
            #[trigger] now[k]).0 by {
                assert(now[j] == all[j + d] && now[k] == all[k + d]);
                if k + d < before.recent.len() {
                    assert(before.recent[j + d].0 < before.recent[k + d].0);
                } else {
                    assert(before.recent[j + d].0 <= before.seq);
                }
            }
            assert forall|k: int| 0 <= k < now.len() implies (#[trigger] now[k]).1.len()
                <= u16::MAX && now[k].0 <= self.seq by {
                assert(now[k] == all[k + d]);
                if k + d < before.recent.len() {
                    assert(before.recent[k + d].0 <= before.seq);
                    assert(before.recent[k + d].1.len() <= u16::MAX);
                }
            }
        }
        let d: Vec<u8> = self.datagram();
        (self.seq, d)
    }

    /// The input datagram of the recent run.
    fn datagram(&self) -> (r: Vec<u8>)
        requires
            self@.recent.len() <= u8::MAX,
        ensures
            r@ == seq![DGRAM_INPUT] + inputs_bytes(self@.recent),
    {
        let ghost f = |i: (u32, Seq<u8>)| input_part(i);
        let ghost run = self@.recent;
        let mut d: Vec<u8> = Vec::new();
        d.push(DGRAM_INPUT);
        d.push(self.recent.len() as u8);
        let mut i: usize = 0;
        let ghost head = d@;
        proof {
            assert(run.take(0).map_values(f) =~= Seq::<Seq<u8>>::empty());
            assert(d@ =~= head + cat(run.take(0).map_values(f)));
        }
        while i < self.recent.len()
            invariant
                f == (|i: (u32, Seq<u8>)| input_part(i)),
                run == self@.recent,
                i <= run.len(),
                d@ == head + cat(run.take(i as int).map_values(f)),
            decreases run.len() - i,
        {
            let ghost before = d@;
            put32(&mut d, self.recent[i].seq);
            put16(&mut d, self.recent[i].payload.len() as u16);
            put_bytes(&mut d, self.recent[i].payload.as_slice());
            proof {
                let done = run.take(i as int).map_values(f);
                assert(run[i as int] == (self.recent@[i as int].seq, self.recent@[i as int].payload@));
                assert(run.take(i + 1).map_values(f) =~= done.push(input_part(run[i as int])));
                cat_push(done, input_part(run[i as int]));
                assert(d@ =~= before + input_part(run[i as int]));
                assert(d@ =~= head + cat(run.take(i + 1).map_values(f)));
            }
            i += 1;
        }
        assert(run.take(i as int) =~= run);
        assert(d@ =~= seq![DGRAM_INPUT] + inputs_bytes(self@.recent));
        d
    }
}

// --- small datagrams --------------------------------------------------------

/// An ack of a snapshot's tick and send sequence.
pub open spec fn ack_bytes(tick: u32, seq: u32) -> Seq<u8> {
    seq![DGRAM_ACK] + le32(tick) + le32(seq)
}

/// Build an ack datagram.
pub fn ack_datagram(tick: u32, seq: u32) -> (r: Vec<u8>)
    ensures
        r@ == ack_bytes(tick, seq),
{
    let mut d: Vec<u8> = Vec::new();
    d.push(DGRAM_ACK);
    put32(&mut d, tick);
    put32(&mut d, seq);
    assert(d@ =~= ack_bytes(tick, seq));
    d
}

/// Build a snapshot datagram.
pub fn snapshot_datagram(snapshot: &[u8]) -> (r: Vec<u8>)
    ensures
        r@ == seq![DGRAM_SNAPSHOT] + snapshot@,
{
    let mut d: Vec<u8> = Vec::new();
    d.push(DGRAM_SNAPSHOT);
    put_bytes(&mut d, snapshot);
    assert(d@ =~= seq![DGRAM_SNAPSHOT] + snapshot@);
    d
}

/// Six 32-bit fields in wire order.
pub open spec fn fields_bytes(fields: Seq<u32>) -> Seq<u8>
    decreases fields.len(),
{
    if fields.len() == 0 {
        Seq::empty()
    } else {
        fields_bytes(fields.drop_last()) + le32(fields.last())
    }
}

/// Build a view-pose datagram from the bit patterns of eye and forward.
pub fn view_datagram(pose: &Vec<u32>) -> (r: Vec<u8>)
    ensures
        r@ == seq![DGRAM_VIEW] + fields_bytes(pose@),
{
    let mut d: Vec<u8> = Vec::new();
    d.push(DGRAM_VIEW);
    let mut i: usize = 0;
    assert(pose@.take(0) =~= Seq::<u32>::empty());
    assert(d@ =~= seq![DGRAM_VIEW] + fields_bytes(pose@.take(0)));
    while i < pose.len()
        invariant
            i <= pose@.len(),
            d@ == seq![DGRAM_VIEW] + fields_bytes(pose@.take(i as int)),
        decreases pose@.len() - i,
    {
        put32(&mut d, pose[i]);
        proof {
            assert(pose@.take(i + 1).drop_last() =~= pose@.take(i as int));
            assert(d@ =~= seq![DGRAM_VIEW] + fields_bytes(pose@.take(i + 1)));
        }
        i += 1;
    }
    assert(pose@.take(i as int) =~= pose@);
    d
}

/// Reading frames loses nothing: the frames read and what is left make up the
/// bytes that came, and what is left holds no whole frame.
pub proof fn reading_frames_loses_nothing(buf: Seq<u8>)
    ensures
        ({
            let out = frames_of(buf);
            &&& buf == cat(out.0.map_values(|f: FrameView| frame_bytes(f))) + out.1
            &&& out.1.len() < 6 || out.1.len() - 6 < un32(out.1.subrange(2, 6))
        }),
    decreases buf.len(),
{
    let g = |f: FrameView| frame_bytes(f);
    let out = frames_of(buf);
    if buf.len() < 6 || buf.len() - 6 < un32(buf.subrange(2, 6)) {
        assert(out.0.map_values(g) =~= Seq::<Seq<u8>>::empty());
        assert(cat(out.0.map_values(g)) + out.1 =~= buf);
    } else {
        let len = un32(buf.subrange(2, 6)) as int;
        let tail = buf.skip(6 + len);
        let rest = frames_of(tail);
        reading_frames_loses_nothing(tail);
        let f = FrameView { ty: un16(buf.take(2)), payload: buf.subrange(6, 6 + len) };
        assert(out.0 =~= seq![f] + rest.0);
        assert(out.0.map_values(g).drop_first() =~= rest.0.map_values(g));
        assert(out.0.map_values(g)[0] == frame_bytes(f));
        crate::wire::numbers_travel_lowest_byte_first(buf.take(2));
        crate::wire::numbers_travel_lowest_byte_first(buf.subrange(2, 6));
        assert(frame_bytes(f) =~= buf.take(6 + len));
        assert(cat(out.0.map_values(g)) == frame_bytes(f) + cat(rest.0.map_values(g)));
        assert(cat(out.0.map_values(g)) + out.1 =~= frame_bytes(f) + tail);
        assert(frame_bytes(f) + tail =~= buf);
    }
}

/// Of a run the inputs past the last seen one are taken, all of them and in
/// order.
pub proof fn exactly_the_newer_inputs_are_taken(inputs: Seq<(u32, Seq<u8>)>, last: u32) -> (gone:
    int)
    requires
        input_run(inputs),
    ensures
        0 <= gone <= inputs.len(),
        newer_inputs(inputs, last) == inputs.skip(gone),
        forall|k: int| 0 <= k < inputs.len() ==> (k >= gone <==> (#[trigger] inputs[k]).0 > last),
    decreases inputs.len(),
{
    if inputs.len() == 0 {
        assert(inputs.skip(0) =~= inputs);
        0
    } else if inputs[0].0 > last {
        assert(inputs.skip(0) =~= inputs);
        assert forall|k: int| 0 <= k < inputs.len() implies (#[trigger] inputs[k]).0 > last by {
            if k > 0 {
                assert(inputs[0].0 < inputs[k].0);
            }
        }
        0
    } else {
        let tail = inputs.drop_first();
        assert(input_run(tail)) by {
            assert forall|j: int, k: int| 0 <= j < k < tail.len() implies (#[trigger] tail[j]).0 < (
            #[trigger] tail[k]).0 by {
                assert(tail[j] == inputs[j + 1] && tail[k] == inputs[k + 1]);
            }
            assert forall|k: int| 0 <= k < tail.len() implies (#[trigger] tail[k]).1.len()
                <= u16::MAX by {
                assert(tail[k] == inputs[k + 1]);
            }
        }
        let g = exactly_the_newer_inputs_are_taken(tail, last);
        assert(tail.skip(g) =~= inputs.skip(g + 1));
        assert forall|k: int| 0 <= k < inputs.len() implies (k >= g + 1 <==> (
        #[trigger] inputs[k]).0 > last) by {
            if k > 0 {
                assert(tail[k - 1] == inputs[k]);
            }
        }
        g + 1
    }
}

/// Each input whose bytes came is taken exactly where it is newer than all
/// before it, whatever follows; a part of an input is not.
pub proof fn inputs_are_taken_one_by_one(i: (u32, Seq<u8>), rest: Seq<u8>, n: nat, last: u32, cut:
    int)
    requires
        i.1.len() <= u16::MAX,
        0 <= cut < input_part(i).len(),
    ensures
        i.0 > last ==> inputs_from(input_part(i) + rest, n + 1, last).0 == seq![i] + inputs_from(
            rest,
            n,
            i.0,
        ).0,
        i.0 <= last ==> inputs_from(input_part(i) + rest, n + 1, last).0 == inputs_from(
            rest,
            n,
            last,
        ).0,
        inputs_from(rest, 0, last).0.len() == 0,
        inputs_from(input_part(i).take(cut), n, last).0.len() == 0,
{
    let data = input_part(i) + rest;
    let len = i.1.len() as int;
    le32_round_trip(i.0);
    le16_round_trip(i.1.len() as u16);
    assert(data.take(4) =~= le32(i.0));
    assert(data.subrange(4, 6) =~= le16(i.1.len() as u16));
    assert(data.subrange(6, 6 + len) =~= i.1);
    assert(data.skip(6 + len) =~= rest);
    let part = input_part(i).take(cut);
    if part.len() >= 6 {
        assert(part.subrange(4, 6) =~= le16(i.1.len() as u16));
    }
}

/// A pushed input takes the next sequence and goes last; the ring keeps the
/// eight newest and nothing between is lost.
pub proof fn the_ring_keeps_the_newest(r: RingView, payload: Seq<u8>)
    requires
        ring_sound(r),
        r.seq < u32::MAX,
    ensures
        ({
            let out = ring_pushed(r, payload);
            let n = out.recent.len() as int;
            &&& out.seq == r.seq + 1
            &&& n == if r.recent.len() < 8 {
                r.recent.len() + 1
            } else {
                8
            }
            &&& out.recent[n - 1] == (out.seq, payload)
            &&& forall|k: int|
                0 <= k < n - 1 ==> #[trigger] out.recent[k] == r.recent[r.recent.len() - (n - 1)
                    + k]
        }),
{
}

/// How the pieces are laid out: a frame is its type and its payload's length,
/// then the payload; an ack is the byte 1, the tick and the sequence; an input
/// is its sequence and its payload's length, then the payload, and a batch has
/// their number before them.
pub proof fn pieces_are_laid_out(
    f: FrameView,
    tick: u32,
    seq: u32,
    i: (u32, Seq<u8>),
    inputs: Seq<(u32, Seq<u8>)>,
)
    requires
        f.payload.len() <= u32::MAX,
        i.1.len() <= u16::MAX,
        inputs.len() <= u8::MAX,
    ensures
        frame_bytes(f).len() == 6 + f.payload.len(),
        un16(frame_bytes(f).subrange(0, 2)) == f.ty,
        un32(frame_bytes(f).subrange(2, 6)) == f.payload.len(),
        frame_bytes(f).skip(6) == f.payload,
        ack_bytes(tick, seq).len() == 9,
        ack_bytes(tick, seq)[0] == 1,
        un32(ack_bytes(tick, seq).subrange(1, 5)) == tick,
        un32(ack_bytes(tick, seq).subrange(5, 9)) == seq,
        input_part(i).len() == 6 + i.1.len(),
        un32(input_part(i).subrange(0, 4)) == i.0,
        un16(input_part(i).subrange(4, 6)) == i.1.len(),
        input_part(i).skip(6) == i.1,
        inputs_bytes(inputs)[0] == inputs.len(),
{
    le16_round_trip(f.ty);
    le32_round_trip(f.payload.len() as u32);
    le32_round_trip(tick);
    le32_round_trip(seq);
    le32_round_trip(i.0);
    le16_round_trip(i.1.len() as u16);
    assert(frame_bytes(f).subrange(0, 2) =~= le16(f.ty));
    assert(frame_bytes(f).subrange(2, 6) =~= le32(f.payload.len() as u32));
    assert(frame_bytes(f).skip(6) =~= f.payload);
    assert(ack_bytes(tick, seq).subrange(1, 5) =~= le32(tick));
    assert(ack_bytes(tick, seq).subrange(5, 9) =~= le32(seq));
    assert(input_part(i).subrange(0, 4) =~= le32(i.0));
    assert(input_part(i).subrange(4, 6) =~= le16(i.1.len() as u16));
    assert(input_part(i).skip(6) =~= i.1);
}

/// Fields travel one after another, four bytes each.
pub proof fn fields_travel_in_order(fields: Seq<u32>, k: int)
    ensures
        fields_bytes(fields).len() == 4 * fields.len(),
        0 <= k < fields.len() ==> un32(fields_bytes(fields).subrange(4 * k, 4 * k + 4))
            == fields[k],
    decreases fields.len(),
{
    if fields.len() > 0 {
        let init = fields.drop_last();
        fields_travel_in_order(init, k);
        le32_round_trip(fields.last());
        if 0 <= k < init.len() {
            assert(fields_bytes(fields).subrange(4 * k, 4 * k + 4) =~= fields_bytes(init).subrange(
                4 * k,
                4 * k + 4,
            ));
        } else if k == init.len() {
            assert(fields_bytes(fields).subrange(4 * k, 4 * k + 4) =~= le32(fields.last()));
        }
    }
}

} // verus!
