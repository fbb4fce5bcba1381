//! The binary log: a flat sequence of frames, each an 8-byte little-endian
//! length followed by that many bytes of MessagePack payload.

use vstd::bytes::{spec_u64_from_le_bytes, spec_u64_to_le_bytes, u64_from_le_bytes, u64_to_le_bytes};
use vstd::prelude::*;

use crate::event::{views, Event, EventView};

verus! {

/// The MessagePack bytes that `rmp_serde` writes for an event's fields.
pub uninterp spec fn rmp_bytes(e: EventView) -> Seq<u8>;

/// The event that `rmp_serde` reads from a payload, if it reads one.
pub uninterp spec fn rmp_event(payload: Seq<u8>) -> Option<EventView>;

/// Each text field of the event has fewer than 2^30 characters, so that its
/// UTF-8 length fits the 32-bit length that MessagePack gives a string.
pub open spec fn texts_fit(e: EventView) -> bool {
    &&& e.command.len() < 0x4000_0000
    &&& e.folder.len() < 0x4000_0000
    &&& e.machine.len() < 0x4000_0000
    &&& e.session.len() < 0x4000_0000
}

/// Relies on `rmp_serde::to_vec`: the event's fields are written as one
/// MessagePack array, which `rmp_serde::from_slice` reads back as the same
/// fields when every string's length fits in 32 bits. It fails only when
/// memory for the bytes cannot be reserved.
#[verifier::external_body]
fn encode_payload(e: &Event) -> (r: Option<Vec<u8>>)
    ensures
        r matches Some(b) ==> b@ == rmp_bytes(e@),
        texts_fit(e@) ==> (r matches Some(b) ==> rmp_event(b@) == Some(e@)),
{
    rmp_serde::to_vec(
        &(e.timestamp, &e.command, e.duration, e.exit_code, &e.folder, &e.machine, &e.session),
    ).ok()
}

/// Relies on `rmp_serde::from_slice`: reads the array of an event's fields,
/// or fails; the outcome depends on the bytes alone.
#[verifier::external_body]
fn decode_payload(payload: &[u8]) -> (r: Option<Event>)
    ensures
        r matches Some(e) ==> rmp_event(payload@) == Some(e@),
        r is None ==> rmp_event(payload@) is None,
{
    rmp_serde::from_slice::<(i64, String, i64, i16, String, String, String)>(payload).ok().map(
        |(timestamp, command, duration, exit_code, folder, machine, session)|
            Event { timestamp, command, duration, exit_code, folder, machine, session },
    )
}

/// Why a binary log could not be read.
#[derive(Clone, Copy, Debug, PartialEq, Eq)]
pub enum DecodeError {
    /// A frame's length, or its length prefix, runs past the end of the data.
    Truncated,
    /// A frame's payload is not an event.
    Malformed,
}

/// One frame: the payload's length as 8 little-endian bytes, then the payload.
pub open spec fn frame(payload: Seq<u8>) -> Seq<u8> {
    spec_u64_to_le_bytes(payload.len() as u64) + payload
}

/// `rest` with `first` in front, or the error of `rest`.
pub open spec fn prepend(
    first: Seq<EventView>,
    rest: Result<Seq<EventView>, DecodeError>,
) -> Result<Seq<EventView>, DecodeError> {
    match rest {
        Ok(s) => Ok(first + s),
        Err(err) => Err(err),
    }
}

/// The events of a binary log, front to back, or the first error met.
///
/// Empty data ends the log. Fewer than 8 bytes, or a length greater than the
/// bytes that follow it, is a truncation; a payload that is not an event is
/// malformed. An error anywhere discards the whole log.
pub open spec fn decode_log(data: Seq<u8>) -> Result<Seq<EventView>, DecodeError>
    decreases data.len(),
{
    if data.len() == 0 {
        Ok(Seq::empty())
    } else if data.len() < 8 {
        Err(DecodeError::Truncated)
    } else {
        let n = spec_u64_from_le_bytes(data.subrange(0, 8)) as int;
        if n > data.len() - 8 {
            Err(DecodeError::Truncated)
        } else {
            match rmp_event(data.subrange(8, 8 + n)) {
                None => Err(DecodeError::Malformed),
                Some(e) => prepend(seq![e], decode_log(data.subrange(8 + n, data.len() as int))),
            }
        }
    }
}

/// A frame whose payload reads back as an event decodes, in front of any log
/// that follows it, to that event in front of the rest.
pub proof fn lemma_decode_frame_then(payload: Seq<u8>, e: EventView, rest: Seq<u8>)
    requires
        payload.len() <= u64::MAX,
        rmp_event(payload) == Some(e),
    ensures
        decode_log(frame(payload) + rest) == prepend(seq![e], decode_log(rest)),
{
    let data = frame(payload) + rest;
    vstd::bytes::lemma_auto_spec_u64_to_from_le_bytes();
    let n = payload.len() as u64;
    assert(spec_u64_to_le_bytes(n).len() == 8);
    assert(data.subrange(0, 8) =~= spec_u64_to_le_bytes(n));
    assert(data.subrange(8, 8 + payload.len() as int) =~= payload);
    assert(data.subrange(8 + payload.len() as int, data.len() as int) =~= rest);
}

/// A log that reads, followed by more bytes, reads as its events followed by
/// what the rest reads as.
pub proof fn lemma_decode_log_concat(a: Seq<u8>, b: Seq<u8>)
    requires
        decode_log(a) is Ok,
    ensures
        match decode_log(a) {
            Ok(s) => decode_log(a + b) == prepend(s, decode_log(b)),
            Err(_) => false,
        },
    decreases a.len(),
{
    let all = a + b;
    if a.len() == 0 {
        assert(all =~= b);
        match decode_log(b) {
            Ok(t) => assert(Seq::<EventView>::empty() + t =~= t),
            Err(_) => {},
        }
    } else {
        let n = spec_u64_from_le_bytes(a.subrange(0, 8)) as int;
        let rest = a.subrange(8 + n, a.len() as int);
        assert(all.subrange(0, 8) =~= a.subrange(0, 8));
        assert(all.subrange(8, 8 + n) =~= a.subrange(8, 8 + n));
        assert(all.subrange(8 + n, all.len() as int) =~= rest + b);
        lemma_decode_log_concat(rest, b);
        let first = rmp_event(a.subrange(8, 8 + n)).unwrap();
        match decode_log(rest) {
            Ok(t) => {
                match decode_log(b) {
                    Ok(u) => assert(seq![first] + (t + u) =~= (seq![first] + t) + u),
                    Err(_) => {},
                }
            },
            Err(_) => {},
        }
    }
}

/// A frame appended to a log that reads adds its event at the end.
pub proof fn lemma_decode_log_then_frame(data: Seq<u8>, payload: Seq<u8>, e: EventView)
    requires
        payload.len() <= u64::MAX,
        rmp_event(payload) == Some(e),
        decode_log(data) is Ok,
    ensures
        match decode_log(data) {
            Ok(s) => decode_log(data + frame(payload)) == Ok::<Seq<EventView>, DecodeError>(s.push(e)),
            Err(_) => false,
        },
    decreases data.len(),
{
    let all = data + frame(payload);
    if data.len() == 0 {
        assert(all =~= frame(payload) + Seq::<u8>::empty());
        lemma_decode_frame_then(payload, e, Seq::empty());
        assert(seq![e] + Seq::<EventView>::empty() =~= Seq::<EventView>::empty().push(e));
    } else {
        let n = spec_u64_from_le_bytes(data.subrange(0, 8)) as int;
        let rest = data.subrange(8 + n, data.len() as int);
        assert(all.subrange(0, 8) =~= data.subrange(0, 8));
        assert(all.subrange(8, 8 + n) =~= data.subrange(8, 8 + n));
        assert(all.subrange(8 + n, all.len() as int) =~= rest + frame(payload));
        lemma_decode_log_then_frame(rest, payload, e);
        let first = rmp_event(data.subrange(8, 8 + n)).unwrap();
        match decode_log(rest) {
            Ok(t) => {
                assert(seq![first] + t.push(e) =~= (seq![first] + t).push(e));
            },
            Err(_) => {},
        }
    }
}

/// Frames written one after another read back as the same events in the same
/// order.
pub proof fn lemma_frames_read_in_order(payloads: Seq<Seq<u8>>, events: Seq<EventView>)
    requires
        payloads.len() == events.len(),
        forall|i: int| 0 <= i < payloads.len() ==> payloads[i].len() <= u64::MAX,
        forall|i: int| 0 <= i < payloads.len() ==> rmp_event(#[trigger] payloads[i]) == Some(events[i]),
    ensures
        decode_log(frames(payloads)) == Ok::<Seq<EventView>, DecodeError>(events),
    decreases payloads.len(),
{
    if payloads.len() > 0 {
        let first = payloads[0];
        let tail = payloads.drop_first();
        assert(frames(payloads) == frame(first) + frames(tail));
        assert forall|i: int| 0 <= i < tail.len() implies rmp_event(#[trigger] tail[i]) == Some(events.drop_first()[i]) by {
            assert(tail[i] == payloads[i + 1]);
        }
        lemma_frames_read_in_order(tail, events.drop_first());
        lemma_decode_frame_then(first, events[0], frames(tail));
        assert(seq![events[0]] + events.drop_first() =~= events);
    } else {
        assert(frames(payloads) =~= Seq::<u8>::empty());
        assert(events =~= Seq::<EventView>::empty());
    }
}

/// The frames of several payloads, one after another.
pub open spec fn frames(payloads: Seq<Seq<u8>>) -> Seq<u8>
    decreases payloads.len(),
{
    if payloads.len() == 0 {
        Seq::empty()
    } else {
        frame(payloads[0]) + frames(payloads.drop_first())
    }
}

/// Appending one payload's frame to the frames of several.
pub proof fn lemma_frames_push(payloads: Seq<Seq<u8>>, p: Seq<u8>)
    ensures
        frames(payloads.push(p)) == frames(payloads) + frame(p),
    decreases payloads.len(),
{
    if payloads.len() == 0 {
        assert(payloads.push(p).drop_first() =~= Seq::<Seq<u8>>::empty());
        assert(payloads.push(p)[0] == p);
        assert(frames(Seq::<Seq<u8>>::empty()) == Seq::<u8>::empty());
        assert(frames(payloads.push(p)) =~= frame(p) + Seq::<u8>::empty());
        assert(frames(payloads) + frame(p) =~= frame(p));
    } else {
        assert(payloads.push(p).drop_first() =~= payloads.drop_first().push(p));
        lemma_frames_push(payloads.drop_first(), p);
        assert(frame(payloads[0]) + (frames(payloads.drop_first()) + frame(p)) =~= frame(payloads[0])
            + frames(payloads.drop_first()) + frame(p));
    }
}

/// Appends the frame of `payload` to `out`.
pub fn write_frame(out: &mut Vec<u8>, payload: &[u8])
    ensures
        final(out)@ == old(out)@ + frame(payload@),
        payload@.len() <= u64::MAX,
{
    let len: usize = payload.len();
    assert(len <= u64::MAX);
    let size = u64_to_le_bytes(len as u64);
    let ghost start = out@;
    let mut i: usize = 0;
    while i < 8
        invariant
            size@ == spec_u64_to_le_bytes(payload@.len() as u64),
            size@.len() == 8,
            0 <= i <= 8,
            out@ == start + size@.subrange(0, i as int),
        decreases 8 - i,
    {
        out.push(size[i]);
        proof {
            assert(size@.subrange(0, i + 1) =~= size@.subrange(0, i as int).push(size@[i as int]));
        }
        i = i + 1;
    }
    let mut j: usize = 0;
    while j < payload.len()
        invariant
            size@.len() == 8,
            0 <= j <= payload@.len(),
            out@ == start + size@ + payload@.subrange(0, j as int),
        decreases payload@.len() - j,
    {
        out.push(payload[j]);
        proof {
            assert(payload@.subrange(0, j + 1) =~= payload@.subrange(0, j as int).push(payload@[j as int]));
        }
        j = j + 1;
    }
    proof {
        assert(size@.subrange(0, 8) =~= size@);
        assert(payload@.subrange(0, payload@.len() as int) =~= payload@);
        assert(start + size@ + payload@ =~= start + (size@ + payload@));
    }
}

/// The frame of one event: its MessagePack payload behind the payload's
/// length. `None` if memory for the payload could not be had. An event whose
/// texts fit (see [`texts_fit`]) reads back from its frame.
pub fn encode_event(e: &Event) -> (r: Option<Vec<u8>>)
    ensures
        r matches Some(b) ==> b@ == frame(rmp_bytes(e@)),
        r is Some ==> rmp_bytes(e@).len() <= u64::MAX,
        texts_fit(e@) ==> (r matches Some(b) ==> decode_log(b@) == Ok::<Seq<EventView>, DecodeError>(seq![e@])),
        r is Some && texts_fit(e@) ==> rmp_event(rmp_bytes(e@)) == Some(e@),
{
    match encode_payload(e) {
        None => None,
        Some(payload) => {
            let mut out: Vec<u8> = Vec::new();
            write_frame(&mut out, payload.as_slice());
            proof {
                assert(out@ =~= frame(payload@));
                if texts_fit(e@) {
                    lemma_decode_frame_then(payload@, e@, Seq::empty());
                    assert(frame(payload@) + Seq::<u8>::empty() =~= frame(payload@));
                    assert(seq![e@] + Seq::<EventView>::empty() =~= seq![e@]);
                }
            }
            Some(out)
        },
    }
}

/// The frames of all events, in order: a whole binary log. `None` if memory
/// for some payload could not be had. When every event's texts fit, the log
/// reads back as the events in order.
pub fn encode_events(events: &[Event]) -> (r: Option<Vec<u8>>)
    ensures
        (forall|k: int| 0 <= k < events@.len() ==> texts_fit(#[trigger] events@[k]@)) ==> (r matches Some(b)
            ==> decode_log(b@) == Ok::<Seq<EventView>, DecodeError>(views(events@))),
{
    let ghost all_fit = forall|k: int| 0 <= k < events@.len() ==> texts_fit(#[trigger] events@[k]@);
    let mut out: Vec<u8> = Vec::new();
    let ghost mut payloads: Seq<Seq<u8>> = Seq::empty();
    let mut i: usize = 0;
    while i < events.len()
        invariant
            0 <= i <= events@.len(),
            payloads.len() == i,
            out@ == frames(payloads),
            forall|k: int| 0 <= k < i ==> (#[trigger] payloads[k]).len() <= u64::MAX,
            all_fit == forall|k: int| 0 <= k < events@.len() ==> texts_fit(#[trigger] events@[k]@),
            all_fit ==> forall|k: int| 0 <= k < i ==> rmp_event(#[trigger] payloads[k]) == Some(events@[k]@),
        decreases events@.len() - i,
    {
        match encode_payload(&events[i]) {
            None => {
                return None;
            },
            Some(payload) => {
                proof {
                    lemma_frames_push(payloads, payload@);

                }
                write_frame(&mut out, payload.as_slice());
                proof {
                    payloads = payloads.push(payload@);
                }
                i = i + 1;
            },
        }
    }
    proof {
        if all_fit {
            lemma_frames_read_in_order(payloads, views(events@));
        }
    }
    Some(out)
}

/// `std::io::Error`, which a failed write hands back as it is.
#[verifier::external_type_specification]
#[verifier::external_body]
pub struct ExIoError(std::io::Error);

/// Relies on `std::io::Write::write_all`: hands all of `buf` to the writer, or
/// reports the writer's error.
#[verifier::external_body]
fn write_all_to<W: std::io::Write>(w: &mut W, buf: &[u8]) -> (r: Result<(), std::io::Error>) {
    w.write_all(buf)
}

/// Relies on `std::io::Write::flush`: pushes buffered bytes on to their
/// destination, or reports the writer's error.
#[verifier::external_body]
fn flush_writer<W: std::io::Write>(w: &mut W) -> (r: Result<(), std::io::Error>) {
    w.flush()
}

/// Why an event could not be appended to a binary log.
#[derive(Debug)]
pub enum WriteError {
    /// The event's payload could not be encoded.
    Encode,
    /// The writer failed.
    Io(std::io::Error),
}

/// Appends events to a binary log, one frame per event.
pub struct BinaryWriter<W> {
    inner: W,
    /// the bytes handed to the writer so far
    handed: Ghost<Seq<u8>>,
}

impl<W: std::io::Write> BinaryWriter<W> {
    /// The writer that frames go to.
    pub closed spec fn writer(&self) -> W {
        self.inner
    }

    /// The bytes handed to the writer by the writes that succeeded, in
    /// order.
    pub closed spec fn handed(&self) -> Seq<u8> {
        self.handed@
    }

    pub fn new(writer: W) -> (r: Self)
        ensures
            r.writer() == writer,
            r.handed() == Seq::<u8>::empty(),
    {
        BinaryWriter { inner: writer, handed: Ghost(Seq::empty()) }
    }

    /// Writes the frame of `event` (see [`encode_event`]) in one piece. When
    /// it succeeds and the event's texts fit, the bytes handed over so far
    /// read back as the events written so far, this one last. On an error
    /// nothing counts as handed over.
    pub fn write(&mut self, event: Event) -> (r: Result<(), WriteError>)
        ensures
            r is Ok ==> final(self).handed() == old(self).handed() + frame(rmp_bytes(event@)),
            r is Ok && texts_fit(event@) ==> match decode_log(old(self).handed()) {
                Ok(s) => decode_log(final(self).handed()) == Ok::<Seq<EventView>, DecodeError>(s.push(event@)),
                Err(_) => true,
            },
            r is Err ==> final(self).handed() == old(self).handed(),
    {
        match encode_event(&event) {
            None => Err(WriteError::Encode),
            Some(buf) => match write_all_to(&mut self.inner, buf.as_slice()) {
                Ok(()) => {
                    proof {
                        if decode_log(self.handed@) is Ok && texts_fit(event@) {
                            lemma_decode_log_then_frame(self.handed@, rmp_bytes(event@), event@);
                        }
                        self.handed@ = self.handed@ + buf@;
                    }
                    Ok(())
                },
                Err(e) => Err(WriteError::Io(e)),
            },
        }
    }

    pub fn flush(&mut self) -> (r: Result<(), std::io::Error>)
        ensures
            final(self).handed() == old(self).handed(),
    {
        flush_writer(&mut self.inner)
    }

    /// The writer that frames went to.
    pub fn into_inner(self) -> (r: W)
        ensures
            r == self.writer(),
    {
        self.inner
    }
}

impl Event {
    /// Appends this event to a binary log.
    pub fn write<W: std::io::Write>(self, writer: &mut BinaryWriter<W>) -> (r: Result<(), WriteError>)
        ensures
            r is Ok ==> final(writer).handed() == old(writer).handed() + frame(rmp_bytes(self@)),
            r is Err ==> final(writer).handed() == old(writer).handed(),
    {
        writer.write(self)
    }
}

/// Reads every event of a binary log held in memory, front to back.
pub fn load_osh_events(data: &[u8]) -> (r: Result<Vec<Event>, DecodeError>)
    ensures
        match r {
            Ok(events) => decode_log(data@) == Ok::<Seq<EventView>, DecodeError>(views(events@)),
            Err(err) => decode_log(data@) == Err::<Seq<EventView>, DecodeError>(err),
        },
{
    let mut events: Vec<Event> = Vec::new();
    let mut cursor: usize = 0;
    proof {
        assert(data@.subrange(0, data@.len() as int) =~= data@);
        match decode_log(data@) {
            Ok(s) => assert(views(events@) + s =~= s),
            Err(_) => {},
        }
    }
    while cursor < data.len()
        invariant
            cursor <= data@.len(),
            decode_log(data@) == prepend(views(events@), decode_log(data@.subrange(cursor as int, data@.len() as int))),
        decreases data@.len() - cursor,
    {
        let ghost rest = data@.subrange(cursor as int, data@.len() as int);
        if data.len() - cursor < 8 {
            proof {
                assert(decode_log(rest) == Err::<Seq<EventView>, DecodeError>(DecodeError::Truncated));
            }
            return Err(DecodeError::Truncated);
        }
        let size = u64_from_le_bytes(&data[cursor..cursor + 8]);
        proof {
            assert(data@.subrange(cursor as int, cursor + 8) =~= rest.subrange(0, 8));
        }
        if size > (data.len() - cursor - 8) as u64 {
            return Err(DecodeError::Truncated);
        }
        let start = cursor + 8;
        let end = start + size as usize;
        let payload = &data[start..end];
        proof {
            assert(payload@ =~= rest.subrange(8, 8 + size as int));
            assert(data@.subrange(end as int, data@.len() as int) =~= rest.subrange(8 + size as int, rest.len() as int));
        }
        match decode_payload(payload) {
            None => {
                return Err(DecodeError::Malformed);
            },
            Some(e) => {
                let ghost before = views(events@);
                events.push(e);
                proof {
                    assert(views(events@) =~= before + seq![e@]);
                    assert(before + seq![e@] + Seq::empty() =~= before + seq![e@]);
                    match decode_log(data@.subrange(end as int, data@.len() as int)) {
                        Ok(s) => {
                            assert(before + (seq![e@] + s) =~= before + seq![e@] + s);
                        },
                        Err(_) => {},
                    }
                }
                cursor = end;
            },
        }
    }
    proof {
        assert(data@.subrange(cursor as int, data@.len() as int) =~= Seq::<u8>::empty());
        assert(views(events@) + Seq::empty() =~= views(events@));
    }
    Ok(events)
}

/// The bytes hold no whole frame: fewer than 8 bytes, or a length that runs
/// past them.
pub open spec fn holds_no_whole_frame(b: Seq<u8>) -> bool {
    b.len() < 8 || spec_u64_from_le_bytes(b.subrange(0, 8)) > b.len() - 8
}

/// The bytes start with no whole frame whose payload is an event.
pub open spec fn holds_no_readable_frame(b: Seq<u8>) -> bool {
    holds_no_whole_frame(b) || rmp_event(b.subrange(8, 8 + spec_u64_from_le_bytes(b.subrange(0, 8)) as int)) is None
}

/// Reads a binary log a chunk at a time, for logs that are streamed rather
/// than held in memory whole: each chunk gives the events of the frames it
/// completes, and the bytes of an unfinished frame wait for the next chunk.
pub struct FrameDecoder {
    /// bytes fed but not yet part of a frame that was read
    pending: Vec<u8>,
    /// the bytes of the frames read so far
    consumed: Ghost<Seq<u8>>,
    /// the events of the frames read so far
    decoded: Ghost<Seq<EventView>>,
}

impl FrameDecoder {
    /// Every byte fed so far.
    pub closed spec fn fed(&self) -> Seq<u8> {
        self.consumed@ + self.pending@
    }

    /// Every event handed out so far.
    pub closed spec fn decoded(&self) -> Seq<EventView> {
        self.decoded@
    }

    /// The bytes fed that are not yet part of a frame that was read.
    pub closed spec fn held(&self) -> Seq<u8> {
        self.pending@
    }

    /// The frames read are the events handed out, and the bytes held back
    /// start with no whole frame that reads: every frame that could be read
    /// has been.
    pub closed spec fn wf(&self) -> bool {
        &&& decode_log(self.consumed@) == Ok::<Seq<EventView>, DecodeError>(self.decoded@)
        &&& holds_no_readable_frame(self.pending@)
    }

    pub fn new() -> (r: Self)
        ensures
            r.wf(),
            r.fed() == Seq::<u8>::empty(),
            r.decoded() == Seq::<EventView>::empty(),
    {
        let r = FrameDecoder { pending: Vec::new(), consumed: Ghost(Seq::empty()), decoded: Ghost(Seq::empty()) };
        proof {
            assert(r.fed() =~= Seq::<u8>::empty());
        }
        r
    }

    /// Takes the next bytes of the log and hands out the events of the frames
    /// that they complete, in order. A whole frame whose payload is not an
    /// event makes the log malformed, whatever follows.
    pub fn feed(&mut self, chunk: &[u8]) -> (r: Result<Vec<Event>, DecodeError>)
        requires
            old(self).wf(),
        ensures
            final(self).wf(),
            final(self).fed() == old(self).fed() + chunk@,
            r matches Ok(events) ==> final(self).decoded() == old(self).decoded() + views(events@),
            r is Ok ==> holds_no_whole_frame(final(self).held()),
            r is Err ==> r == Err::<Vec<Event>, DecodeError>(DecodeError::Malformed),
            r is Err ==> decode_log(final(self).fed()) == Err::<Seq<EventView>, DecodeError>(DecodeError::Malformed),
    {
        let ghost fed0 = self.fed();
        let ghost dec0 = self.decoded@;
        let ghost base = self.consumed@;
        let mut buf: Vec<u8> = Vec::new();
        std::mem::swap(&mut buf, &mut self.pending);
        let mut j: usize = 0;
        while j < chunk.len()
            invariant
                0 <= j <= chunk@.len(),
                base + buf@ == fed0 + chunk@.subrange(0, j as int),
            decreases chunk@.len() - j,
        {
            let ghost before = buf@;
            buf.push(chunk[j]);
            proof {
                assert(chunk@.subrange(0, j + 1) =~= chunk@.subrange(0, j as int).push(chunk@[j as int]));
                assert(base + buf@ =~= (base + before).push(chunk@[j as int]));
            }
            j = j + 1;
        }
        proof {
            assert(chunk@.subrange(0, chunk@.len() as int) =~= chunk@);
        }
        let mut events: Vec<Event> = Vec::new();
        let mut cursor: usize = 0;
        let mut malformed = false;
        while cursor < buf.len() && buf.len() - cursor >= 8
            invariant_except_break
                !malformed,
            invariant
                0 <= cursor <= buf@.len(),
                base + buf@ == fed0 + chunk@,
                decode_log(base + buf@.subrange(0, cursor as int)) == Ok::<Seq<EventView>, DecodeError>(dec0 + views(events@)),
            ensures
                0 <= cursor <= buf@.len(),
                decode_log(base + buf@.subrange(0, cursor as int)) == Ok::<Seq<EventView>, DecodeError>(dec0 + views(events@)),
                malformed ==> decode_log(buf@.subrange(cursor as int, buf@.len() as int)) == Err::<Seq<EventView>, DecodeError>(DecodeError::Malformed),
                malformed ==> holds_no_readable_frame(buf@.subrange(cursor as int, buf@.len() as int)),
                !malformed ==> (buf@.len() - cursor < 8 || spec_u64_from_le_bytes(buf@.subrange(cursor as int, cursor + 8)) > buf@.len() - cursor - 8),
            decreases buf@.len() - cursor,
        {
            let ghost rest = buf@.subrange(cursor as int, buf@.len() as int);
            let size = u64_from_le_bytes(&buf[cursor..cursor + 8]);
            proof {
                assert(buf@.subrange(cursor as int, cursor + 8) =~= rest.subrange(0, 8));
            }
            if size > (buf.len() - cursor - 8) as u64 {
                break;
            }
            let end = cursor + 8 + size as usize;
            let ghost frame_bytes = buf@.subrange(cursor as int, end as int);
            proof {
                assert(buf@.subrange(cursor + 8, end as int) =~= rest.subrange(8, 8 + size as int));
                assert(frame_bytes.subrange(0, 8) =~= rest.subrange(0, 8));
                assert(frame_bytes.subrange(8, 8 + size as int) =~= rest.subrange(8, 8 + size as int));
                assert(frame_bytes.subrange(8 + size as int, frame_bytes.len() as int) =~= Seq::<u8>::empty());
            }
            let payload = &buf[cursor + 8..end];
            proof {
                assert(payload@ =~= frame_bytes.subrange(8, 8 + size as int));
            }
            match decode_payload(payload) {
                None => {
                    proof {
                        assert(rest.subrange(8, 8 + size as int) =~= payload@);
                        assert(rmp_event(rest.subrange(8, 8 + spec_u64_from_le_bytes(rest.subrange(0, 8)) as int)) is None);
                    }
                    malformed = true;
                    break;
                },
                Some(e) => {
                    proof {
                        assert(seq![e@] + Seq::<EventView>::empty() =~= seq![e@]);
                        assert(frame_bytes.len() == 8 + size);
                        assert(spec_u64_from_le_bytes(frame_bytes.subrange(0, 8)) == size);
                        assert(rmp_event(frame_bytes.subrange(8, 8 + size as int)) == Some(e@));
                        assert(decode_log(Seq::<u8>::empty()) == Ok::<Seq<EventView>, DecodeError>(Seq::empty()));
                        assert(decode_log(frame_bytes) == Ok::<Seq<EventView>, DecodeError>(seq![e@]));
                        lemma_decode_log_concat(base + buf@.subrange(0, cursor as int), frame_bytes);
                        assert(base + buf@.subrange(0, cursor as int) + frame_bytes =~= base + buf@.subrange(0, end as int));
                        assert(views(events@.push(e)) =~= views(events@).push(e@));
                        assert(dec0 + views(events@) + seq![e@] =~= dec0 + views(events@).push(e@));
                    }
                    events.push(e);
                    cursor = end;
                },
            }
        }
        let ghost left = buf@.subrange(cursor as int, buf@.len() as int);
        let mut pending: Vec<u8> = Vec::new();
        let mut k: usize = cursor;
        while k < buf.len()
            invariant
                cursor <= k <= buf@.len(),
                pending@ == buf@.subrange(cursor as int, k as int),
            decreases buf@.len() - k,
        {
            pending.push(buf[k]);
            proof {
                assert(buf@.subrange(cursor as int, k + 1) =~= buf@.subrange(cursor as int, k as int).push(buf@[k as int]));
            }
            k = k + 1;
        }
        proof {
            let done = base + buf@.subrange(0, cursor as int);
            assert(done + left =~= base + buf@);
            self.consumed@ = done;
            self.decoded@ = dec0 + views(events@);
            if !malformed && left.len() >= 8 {
                assert(left.subrange(0, 8) =~= buf@.subrange(cursor as int, cursor + 8));
            }
        }
        self.pending = pending;
        if malformed {
            proof {
                lemma_decode_log_concat(self.consumed@, self.pending@);
            }
            Err(DecodeError::Malformed)
        } else {
            Ok(events)
        }
    }

    /// Ends the log. It reads when nothing but whole frames was fed, and then
    /// the events handed out are exactly the log's; otherwise the error is
    /// the log's own.
    pub fn finish(&self) -> (r: Result<(), DecodeError>)
        requires
            self.wf(),
        ensures
            r is Ok ==> decode_log(self.fed()) == Ok::<Seq<EventView>, DecodeError>(self.decoded()),
            r matches Err(e) ==> decode_log(self.fed()) == Err::<Seq<EventView>, DecodeError>(e),
    {
        proof {
            lemma_decode_log_concat(self.consumed@, self.pending@);
        }
        match load_osh_events(self.pending.as_slice()) {
            Ok(_) => {
                proof {
                    assert(self.pending@.len() == 0);
                    assert(self.fed() =~= self.consumed@);
                }
                Ok(())
            },
            Err(e) => Err(e),
        }
    }
}

} // verus!
