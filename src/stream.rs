//! Server side of file streaming: one metadata frame, then the file's bytes in
//! chunks, each non-empty read becoming one data frame.
use vstd::prelude::*;
use vstd::string::StringExecFns;
use crate::proto::{Content, FileContent, FileMetadata};

verus! {

/// Bytes read from the file at a time.
pub const CHUNK_SIZE: usize = 1048576;

/// Frames that may wait between the producer and the consumer.
pub const QUEUE_CAPACITY: usize = 4;

/// The model of a frame.
pub enum Frame {
    Metadata { mime: Seq<char>, size: u64 },
    Data(Seq<u8>),
    Empty,
}

pub open spec fn frame_of(f: FileContent) -> Frame {
    match f.content {
        Some(Content::Metadata(m)) => Frame::Metadata { mime: m.mime_type@, size: m.size },
        Some(Content::Data(d)) => Frame::Data(d@),
        None => Frame::Empty,
    }
}

pub open spec fn frames_of(fs: Seq<FileContent>) -> Seq<Frame> {
    fs.map_values(|f: FileContent| frame_of(f))
}

/// The media type announced for every file. It does not depend on the file.
pub open spec fn placeholder_mime() -> Seq<char> {
    "image/jpeg"@
}

/// The data frames of a file whose reads return whole chunks.
pub open spec fn data_frames(d: Seq<u8>) -> Seq<Frame>
    decreases d.len(),
{
    if d.len() == 0 {
        Seq::empty()
    } else if d.len() <= CHUNK_SIZE {
        seq![Frame::Data(d)]
    } else {
        seq![Frame::Data(d.take(CHUNK_SIZE as int))] + data_frames(d.skip(CHUNK_SIZE as int))
    }
}

/// The frames of a stream of a file with contents `d` that does not change
/// while it is read.
pub open spec fn file_frames(d: Seq<u8>) -> Seq<Frame> {
    seq![Frame::Metadata { mime: placeholder_mime(), size: d.len() as u64 }] + data_frames(d)
}

/// The bytes that the data frames of `fs` carry, in order.
pub open spec fn payload(fs: Seq<Frame>) -> Seq<u8>
    decreases fs.len(),
{
    if fs.len() == 0 {
        Seq::empty()
    } else {
        payload(fs.drop_last()) + match fs.last() {
            Frame::Data(d) => d,
            _ => Seq::empty(),
        }
    }
}

/// The metadata frame announcing a file of `size` bytes.
pub fn metadata_frame(size: u64) -> (f: FileContent)
    ensures
        frame_of(f) == (Frame::Metadata { mime: placeholder_mime(), size }),
{
    let mime_type = String::from_str("image/jpeg");
    FileContent { content: Some(Content::Metadata(FileMetadata { mime_type, size })) }
}

/// Where the producer stands.
#[derive(PartialEq, Eq, Structural, Clone, Copy)]
pub enum Phase {
    Opening,
    Reading,
    Closed,
}

/// What the file side reports to the producer.
pub enum StreamEvent {
    /// The file was opened and has this many bytes.
    Opened(u64),
    /// One read returned these bytes; none means the end of the file.
    Read(Vec<u8>),
    /// Opening or reading failed.
    Failed(String),
}

/// Why a stream ends with an error.
pub enum StreamFault {
    Io(String),
    /// Bytes were reported before the file was opened.
    OutOfOrder,
}

/// What the producer asks the transport to do.
pub enum StreamAction {
    Send(FileContent),
    Fail(StreamFault),
    Finish,
}

/// The model of an action.
pub enum ActionModel {
    Send(Frame),
    FailIo(Seq<char>),
    FailOutOfOrder,
    Finish,
}

pub open spec fn action_of(a: StreamAction) -> ActionModel {
    match a {
        StreamAction::Send(f) => ActionModel::Send(frame_of(f)),
        StreamAction::Fail(StreamFault::Io(m)) => ActionModel::FailIo(m@),
        StreamAction::Fail(StreamFault::OutOfOrder) => ActionModel::FailOutOfOrder,
        StreamAction::Finish => ActionModel::Finish,
    }
}

/// One transition of the producer: the next phase and the action to take.
pub open spec fn step_of(phase: Phase, event: StreamEvent) -> (Phase, ActionModel) {
    match phase {
        Phase::Closed => (Phase::Closed, ActionModel::Finish),
        Phase::Opening => match event {
            StreamEvent::Opened(size) => (
                Phase::Reading,
                ActionModel::Send(Frame::Metadata { mime: placeholder_mime(), size }),
            ),
            StreamEvent::Read(_) => (Phase::Closed, ActionModel::FailOutOfOrder),
            StreamEvent::Failed(m) => (Phase::Closed, ActionModel::FailIo(m@)),
        },
        Phase::Reading => match event {
            StreamEvent::Opened(_) => (Phase::Closed, ActionModel::FailOutOfOrder),
            StreamEvent::Read(d) => if d@.len() == 0 {
                (Phase::Closed, ActionModel::Finish)
            } else {
                (Phase::Reading, ActionModel::Send(Frame::Data(d@)))
            },
            StreamEvent::Failed(m) => (Phase::Closed, ActionModel::FailIo(m@)),
        },
    }
}

/// Turns the events of one file-open request into frames.
pub struct FrameProducer {
    pub phase: Phase,
}

impl FrameProducer {
    pub fn new() -> (p: FrameProducer)
        ensures
            p.phase == Phase::Opening,
    {
        FrameProducer { phase: Phase::Opening }
    }

    /// Takes one event: the metadata frame comes first, each non-empty read
    /// becomes one data frame, an empty read ends the stream, and a failure
    /// ends it with an error. A closed producer only finishes.
    pub fn step(&mut self, event: StreamEvent) -> (a: StreamAction)
        ensures
            (final(self).phase, action_of(a)) == step_of(old(self).phase, event),
    {
        match self.phase {
            Phase::Closed => StreamAction::Finish,
            Phase::Opening => match event {
                StreamEvent::Opened(size) => {
                    self.phase = Phase::Reading;
                    StreamAction::Send(metadata_frame(size))
                },
                StreamEvent::Read(_) => {
                    self.phase = Phase::Closed;
                    StreamAction::Fail(StreamFault::OutOfOrder)
                },
                StreamEvent::Failed(m) => {
                    self.phase = Phase::Closed;
                    StreamAction::Fail(StreamFault::Io(m))
                },
            },
            Phase::Reading => match event {
                StreamEvent::Opened(_) => {
                    self.phase = Phase::Closed;
                    StreamAction::Fail(StreamFault::OutOfOrder)
                },
                StreamEvent::Read(d) => {
                    if d.len() == 0 {
                        self.phase = Phase::Closed;
                        StreamAction::Finish
                    } else {
                        StreamAction::Send(FileContent { content: Some(Content::Data(d)) })
                    }
                },
                StreamEvent::Failed(m) => {
                    self.phase = Phase::Closed;
                    StreamAction::Fail(StreamFault::Io(m))
                },
            },
        }
    }
}

/// The bytes `d[from..to]`, copied.
fn copy_range(d: &Vec<u8>, from: usize, to: usize) -> (r: Vec<u8>)
    requires
        from <= to <= d@.len(),
    ensures
        r@ == d@.subrange(from as int, to as int),
{
    let mut r: Vec<u8> = Vec::new();
    let mut j: usize = from;
    while j < to
        invariant
            from <= j <= to <= d@.len(),
            r@ == d@.subrange(from as int, j as int),
        decreases to - j,
    {
        r.push(d[j]);
        proof {
            assert(d@.subrange(from as int, j + 1) =~= d@.subrange(from as int, j as int).push(d@[j as int]));
        }
        j += 1;
    }
    r
}

/// The frames that streaming a file with contents `data` yields when every
/// read returns a whole chunk, or what is left: the producer driven through
/// one open, the reads, and the final empty read.
pub fn stream_file(data: &Vec<u8>) -> (frames: Vec<FileContent>)
    ensures
        frames_of(frames@) == file_frames(data@),
{
    let mut producer = FrameProducer::new();
    let mut frames: Vec<FileContent> = Vec::new();
    let n = data.len();
    let first = producer.step(StreamEvent::Opened(n as u64));
    if let StreamAction::Send(f) = first {
        frames.push(f);
    }
    proof {
        assert(frames_of(frames@) =~= seq![Frame::Metadata { mime: placeholder_mime(), size: n as u64 }]);
        assert(data@.skip(0) =~= data@);
    }
    let mut pos: usize = 0;
    while pos < n
        invariant
            n == data@.len(),
            pos <= n,
            producer.phase == Phase::Reading,
            frames_of(frames@) + data_frames(data@.skip(pos as int)) == file_frames(data@),
        decreases n - pos,
    {
        let end = if n - pos <= CHUNK_SIZE { n } else { pos + CHUNK_SIZE };
        let chunk = copy_range(data, pos, end);
        let ghost rest = data@.skip(pos as int);
        proof {
            if n - pos <= CHUNK_SIZE {
                assert(chunk@ =~= rest);
                assert(data@.skip(end as int) =~= Seq::<u8>::empty());
                assert(data_frames(data@.skip(end as int)) =~= Seq::<Frame>::empty());
                assert(data_frames(rest) =~= seq![Frame::Data(chunk@)] + data_frames(data@.skip(end as int)));
            } else {
                assert(chunk@ =~= rest.take(CHUNK_SIZE as int));
                assert(rest.skip(CHUNK_SIZE as int) =~= data@.skip(end as int));
            }
        }
        let a = producer.step(StreamEvent::Read(chunk));
        let ghost before = frames@;
        if let StreamAction::Send(f) = a {
            frames.push(f);
        }
        proof {
            assert(frames_of(frames@) =~= frames_of(before).push(Frame::Data(chunk@)));
            assert(frames_of(frames@) + data_frames(data@.skip(end as int)) =~= frames_of(before)
                + data_frames(rest));
        }
        pos = end;
    }
    proof {
        assert(data@.skip(n as int) =~= Seq::<u8>::empty());
        assert(frames_of(frames@) + data_frames(data@.skip(n as int)) =~= frames_of(frames@));
    }
    let _ = producer.step(StreamEvent::Read(Vec::new()));
    frames
}

proof fn lemma_payload_concat(a: Seq<Frame>, b: Seq<Frame>)
    ensures
        payload(a + b) == payload(a) + payload(b),
    decreases b.len(),
{
    if b.len() == 0 {
        assert(a + b =~= a);
        assert(payload(a) + payload(b) =~= payload(a));
    } else {
        assert((a + b).drop_last() =~= a + b.drop_last());
        lemma_payload_concat(a, b.drop_last());
        assert(payload(a + b) =~= payload(a) + payload(b));
    }
}

proof fn lemma_payload_single(f: Frame)
    ensures
        payload(seq![f]) == match f {
            Frame::Data(d) => d,
            _ => Seq::<u8>::empty(),
        },
{
    let fs = seq![f];
    assert(fs.drop_last() =~= Seq::<Frame>::empty());
    assert(payload(fs.drop_last()) == Seq::<u8>::empty());
    assert(payload(fs) =~= Seq::<u8>::empty() + match f {
        Frame::Data(d) => d,
        _ => Seq::<u8>::empty(),
    });
}

/// The data frames of a file carry its bytes in order, and are all data frames.
pub proof fn lemma_data_frames_payload(d: Seq<u8>)
    ensures
        payload(data_frames(d)) == d,
        forall|i: int| 0 <= i < data_frames(d).len() ==> #[trigger] data_frames(d)[i] is Data,
    decreases d.len(),
{
    if d.len() == 0 {
    } else if d.len() <= CHUNK_SIZE {
        lemma_payload_single(Frame::Data(d));
    } else {
        let head = seq![Frame::Data(d.take(CHUNK_SIZE as int))];
        let tail = data_frames(d.skip(CHUNK_SIZE as int));
        lemma_data_frames_payload(d.skip(CHUNK_SIZE as int));
        lemma_payload_concat(head, tail);
        lemma_payload_single(Frame::Data(d.take(CHUNK_SIZE as int)));
        assert(d.take(CHUNK_SIZE as int) + d.skip(CHUNK_SIZE as int) =~= d);
        assert forall|i: int| 0 <= i < data_frames(d).len() implies #[trigger] data_frames(d)[i] is Data by {
            if i > 0 {
                assert(data_frames(d)[i] == tail[i - 1]);
            }
        }
    }
}

/// The data frames of a stream carry exactly the file's bytes, in order, so
/// their total length is the file's size.
pub proof fn lemma_stream_payload(d: Seq<u8>)
    ensures
        payload(file_frames(d)) == d,
        payload(file_frames(d)).len() == d.len(),
{
    let meta = seq![Frame::Metadata { mime: placeholder_mime(), size: d.len() as u64 }];
    lemma_payload_concat(meta, data_frames(d));
    lemma_data_frames_payload(d);
    lemma_payload_single(meta[0]);
    assert(meta =~= seq![meta[0]]);
    assert(payload(meta) + d =~= d);
}

/// A stream starts with the metadata frame, which announces the file's size,
/// and every later frame is a data frame; an empty file gives the metadata
/// frame alone.
pub proof fn lemma_stream_starts_with_metadata(d: Seq<u8>)
    requires
        d.len() <= u64::MAX,
    ensures
        file_frames(d).len() >= 1,
        file_frames(d)[0] == (Frame::Metadata { mime: placeholder_mime(), size: d.len() as u64 }),
        forall|i: int| 1 <= i < file_frames(d).len() ==> #[trigger] file_frames(d)[i] is Data,
        d.len() == 0 ==> file_frames(d).len() == 1,
{
    lemma_data_frames_payload(d);
    assert forall|i: int| 1 <= i < file_frames(d).len() implies #[trigger] file_frames(d)[i] is Data by {
        assert(file_frames(d)[i] == data_frames(d)[i - 1]);
    }
}

/// The phase of a producer that started in `phase` after taking `events`.
pub open spec fn phase_after(phase: Phase, events: Seq<StreamEvent>) -> Phase
    decreases events.len(),
{
    if events.len() == 0 {
        phase
    } else {
        step_of(phase_after(phase, events.drop_last()), events.last()).0
    }
}

/// The actions of a producer that started in `phase` and took `events`.
pub open spec fn run_of(phase: Phase, events: Seq<StreamEvent>) -> Seq<ActionModel>
    decreases events.len(),
{
    if events.len() == 0 {
        Seq::empty()
    } else {
        run_of(phase, events.drop_last()).push(
            step_of(phase_after(phase, events.drop_last()), events.last()).1,
        )
    }
}

/// The frames that `actions` send, in order.
pub open spec fn sent(actions: Seq<ActionModel>) -> Seq<Frame>
    decreases actions.len(),
{
    if actions.len() == 0 {
        Seq::empty()
    } else {
        sent(actions.drop_last()) + match actions.last() {
            ActionModel::Send(f) => seq![f],
            _ => Seq::empty(),
        }
    }
}

/// The bytes that the reads among `events` returned, in order.
pub open spec fn read_bytes(events: Seq<StreamEvent>) -> Seq<u8>
    decreases events.len(),
{
    if events.len() == 0 {
        Seq::empty()
    } else {
        read_bytes(events.drop_last()) + match events.last() {
            StreamEvent::Read(d) => d@,
            _ => Seq::empty(),
        }
    }
}

/// A read that returned some bytes.
pub open spec fn is_full_read(e: StreamEvent) -> bool {
    e matches StreamEvent::Read(d) && d@.len() > 0
}

proof fn lemma_run_opened(size: u64, reads: Seq<StreamEvent>)
    requires
        forall|i: int| 0 <= i < reads.len() ==> is_full_read(#[trigger] reads[i]),
    ensures
        ({
            let events = seq![StreamEvent::Opened(size)] + reads;
            let frames = sent(run_of(Phase::Opening, events));
            &&& phase_after(Phase::Opening, events) == Phase::Reading
            &&& frames.len() == reads.len() + 1
            &&& frames[0] == (Frame::Metadata { mime: placeholder_mime(), size })
            &&& forall|i: int| 1 <= i < frames.len() ==> #[trigger] frames[i] is Data
            &&& payload(frames) == read_bytes(reads)
        }),
    decreases reads.len(),
{
    let events = seq![StreamEvent::Opened(size)] + reads;
    let meta = Frame::Metadata { mime: placeholder_mime(), size };
    if reads.len() == 0 {
        assert(events.drop_last() =~= Seq::<StreamEvent>::empty());
        let acts = run_of(Phase::Opening, events);
        assert(run_of(Phase::Opening, events.drop_last()) == Seq::<ActionModel>::empty());
        assert(acts =~= seq![ActionModel::Send(meta)]);
        assert(acts.drop_last() =~= Seq::<ActionModel>::empty());
        assert(sent(acts.drop_last()) == Seq::<Frame>::empty());
        assert(sent(acts) =~= seq![meta]);
        lemma_payload_single(meta);
    } else {
        let pre = reads.drop_last();
        assert(events.drop_last() =~= seq![StreamEvent::Opened(size)] + pre);
        assert forall|i: int| 0 <= i < pre.len() implies is_full_read(#[trigger] pre[i]) by {
            assert(pre[i] == reads[i]);
        }
        lemma_run_opened(size, pre);
        let before = sent(run_of(Phase::Opening, events.drop_last()));
        let d = reads.last()->Read_0@;
        assert(is_full_read(reads[reads.len() - 1]));
        let frames = sent(run_of(Phase::Opening, events));
        assert(run_of(Phase::Opening, events).drop_last() =~= run_of(Phase::Opening, events.drop_last()));
        assert(frames =~= before + seq![Frame::Data(d)]);
        lemma_payload_concat(before, seq![Frame::Data(d)]);
        lemma_payload_single(Frame::Data(d));
        assert forall|i: int| 1 <= i < frames.len() implies #[trigger] frames[i] is Data by {
            if i < before.len() {
                assert(frames[i] == before[i]);
            }
        }
    }
}

/// Whatever sizes the reads of a file return, a producer that is told the
/// file's size, then each non-empty read, then the empty read at its end,
/// sends the metadata frame announcing that size first, then one data frame per
/// read and nothing else, and finishes. The data frames carry exactly the bytes
/// read, in order, so when the file does not change while it is read they are
/// its bytes and their total length is its size.
pub proof fn lemma_producer_sends_what_was_read(
    size: u64,
    reads: Seq<StreamEvent>,
    end: StreamEvent,
)
    requires
        forall|i: int| 0 <= i < reads.len() ==> is_full_read(#[trigger] reads[i]),
        end matches StreamEvent::Read(d) && d@.len() == 0,
    ensures
        ({
            let actions = run_of(Phase::Opening, seq![StreamEvent::Opened(size)] + reads + seq![end]);
            let frames = sent(actions);
            &&& actions.last() == ActionModel::Finish
            &&& frames.len() == reads.len() + 1
            &&& frames[0] == (Frame::Metadata { mime: placeholder_mime(), size })
            &&& forall|i: int| 1 <= i < frames.len() ==> #[trigger] frames[i] is Data
            &&& payload(frames) == read_bytes(reads)
            &&& read_bytes(reads).len() == size ==> payload(frames).len() == size
        }),
{
    let opened = seq![StreamEvent::Opened(size)] + reads;
    let events = opened + seq![end];
    lemma_run_opened(size, reads);
    assert(events.drop_last() =~= opened);
    let actions = run_of(Phase::Opening, events);
    assert(actions.drop_last() =~= run_of(Phase::Opening, opened));
    assert(sent(actions) =~= sent(run_of(Phase::Opening, opened)));
}

} // verus!
