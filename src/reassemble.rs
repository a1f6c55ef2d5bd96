//! Client side of file streaming: checks the order of the frames and builds
//! one self-describing buffer: an 8-byte big-endian header length, the JSON
//! header, then the file's bytes.
use vstd::prelude::*;
use vstd::string::StringExecFns;
use vstd::utf8::encode_utf8;
use crate::proto::{Content, FileContent};
use crate::stream::{Frame, file_frames, frame_of, frames_of, payload};

verus! {

#[verifier::external_type_specification]
#[verifier::external_body]
pub struct ExJsonError(serde_json::Error);

/// The JSON string literal that serde_json writes for a string: quoted, with
/// the characters that JSON requires escaped.
pub uninterp spec fn json_string_of(s: Seq<char>) -> Seq<char>;

/// Relies on serde_json::to_string applied to a string: it writes the
/// string's JSON literal into a byte vector, which cannot fail, so the result
/// is always that literal.
#[verifier::external_body]
fn json_string(s: &String) -> (r: Result<String, serde_json::Error>)
    ensures
        r is Ok,
        r matches Ok(j) ==> j@ == json_string_of(s@),
{
    serde_json::to_string(s)
}

/// Why a stream could not be reassembled.
#[derive(PartialEq, Eq, Structural, Clone, Copy, Debug)]
pub enum ReassembleError {
    /// A data frame came before any metadata frame.
    DataBeforeMetadata,
    /// A metadata frame came after another frame.
    RepeatedMetadata,
}

/// The header object for a file whose media type has the JSON literal `quoted`.
pub open spec fn header_object(quoted: Seq<char>) -> Seq<char> {
    "{\"mimeType\":"@ + quoted + "}"@
}

/// The eight bytes of `n`, most significant first.
pub open spec fn be_bytes(n: u64) -> Seq<u8> {
    seq![
        (n >> 56u64) as u8,
        (n >> 48u64) as u8,
        (n >> 40u64) as u8,
        (n >> 32u64) as u8,
        (n >> 24u64) as u8,
        (n >> 16u64) as u8,
        (n >> 8u64) as u8,
        n as u8,
    ]
}

/// The number whose big-endian bytes start `b`.
pub open spec fn be_value(b: Seq<u8>) -> u64
    recommends
        b.len() >= 8,
{
    (b[0] as u64) << 56u64 | (b[1] as u64) << 48u64 | (b[2] as u64) << 40u64 | (b[3] as u64)
        << 32u64 | (b[4] as u64) << 24u64 | (b[5] as u64) << 16u64 | (b[6] as u64) << 8u64 | (
    b[7] as u64)
}

/// The start of a framed buffer: the header's length in bytes, then the
/// header's UTF-8 bytes.
pub open spec fn framed_header(header: Seq<char>) -> Seq<u8> {
    be_bytes(encode_utf8(header).len() as u64) + encode_utf8(header)
}

/// The number of frames in `fs` that carry something.
pub open spec fn seen(fs: Seq<Frame>) -> nat
    decreases fs.len(),
{
    if fs.len() == 0 {
        0
    } else {
        seen(fs.drop_last()) + if fs.last() is Empty {
            0nat
        } else {
            1nat
        }
    }
}

/// What reassembling the frames `fs` gives, when each header is written as
/// serde_json writes it: the first frame that carries something must be the
/// metadata frame and no other may be; the buffer is the framed header
/// followed by every data payload in arrival order.
pub open spec fn reassembled(fs: Seq<Frame>) -> Result<Seq<u8>, ReassembleError>
    decreases fs.len(),
{
    if fs.len() == 0 {
        Ok(Seq::empty())
    } else {
        let before = fs.drop_last();
        match reassembled(before) {
            Err(e) => Err(e),
            Ok(buf) => match fs.last() {
                Frame::Empty => Ok(buf),
                Frame::Metadata { mime, size } => if seen(before) == 0 {
                    Ok(framed_header(header_object(json_string_of(mime))))
                } else {
                    Err(ReassembleError::RepeatedMetadata)
                },
                Frame::Data(d) => if seen(before) == 0 {
                    Err(ReassembleError::DataBeforeMetadata)
                } else {
                    Ok(buf + d)
                },
            },
        }
    }
}

/// The eight big-endian bytes of `n`.
pub fn u64_be_bytes(n: u64) -> (r: Vec<u8>)
    ensures
        r@ == be_bytes(n),
{
    let mut r: Vec<u8> = Vec::new();
    r.push((n >> 56u64) as u8);
    r.push((n >> 48u64) as u8);
    r.push((n >> 40u64) as u8);
    r.push((n >> 32u64) as u8);
    r.push((n >> 24u64) as u8);
    r.push((n >> 16u64) as u8);
    r.push((n >> 8u64) as u8);
    r.push(n as u8);
    proof {
        assert(r@ =~= be_bytes(n));
    }
    r
}

/// Decoding the eight big-endian bytes of a number gives the number back.
pub proof fn lemma_be_round_trip(n: u64)
    ensures
        be_value(be_bytes(n)) == n,
{
    let b = be_bytes(n);
    assert(((n >> 56u64) as u8 as u64) << 56u64 | ((n >> 48u64) as u8 as u64) << 48u64 | ((n
        >> 40u64) as u8 as u64) << 40u64 | ((n >> 32u64) as u8 as u64) << 32u64 | ((n >> 24u64) as u8
        as u64) << 24u64 | ((n >> 16u64) as u8 as u64) << 16u64 | ((n >> 8u64) as u8 as u64)
        << 8u64 | (n as u8 as u64) == n) by (bit_vector);
}

/// The JSON header for a media type already written as a JSON literal.
pub fn header_from_json(quoted: &String) -> (r: String)
    ensures
        r@ == header_object(quoted@),
{
    let mut r = String::from_str("{\"mimeType\":");
    r.append(quoted.as_str());
    r.append("}");
    r
}

/// The framed start of a buffer for `header`.
pub fn frame_header(header: &String) -> (r: Vec<u8>)
    ensures
        r@ == framed_header(header@),
{
    let bytes = header.as_str().as_bytes();
    let mut r = u64_be_bytes(bytes.len() as u64);
    let mut j: usize = 0;
    while j < bytes.len()
        invariant
            j <= bytes@.len(),
            bytes@ == encode_utf8(header@),
            r@ == be_bytes(bytes@.len() as u64) + bytes@.subrange(0, j as int),
        decreases bytes@.len() - j,
    {
        r.push(bytes[j]);
        proof {
            assert(bytes@.subrange(0, j + 1) =~= bytes@.subrange(0, j as int).push(bytes@[j as int]));
        }
        j += 1;
    }
    proof {
        assert(bytes@.subrange(0, bytes@.len() as int) =~= bytes@);
    }
    r
}

/// One frame taken by a reassembler holding `buf`, where `started` tells
/// whether a frame that carries something came before: the new buffer and
/// flag, or the protocol error.
pub open spec fn accept_of(buf: Seq<u8>, started: bool, f: Frame) -> Result<
    (Seq<u8>, bool),
    ReassembleError,
> {
    match f {
        Frame::Empty => Ok((buf, started)),
        Frame::Metadata { mime, size } => if started {
            Err(ReassembleError::RepeatedMetadata)
        } else {
            Ok((framed_header(header_object(json_string_of(mime))), true))
        },
        Frame::Data(d) => if !started {
            Err(ReassembleError::DataBeforeMetadata)
        } else {
            Ok((buf + d, true))
        },
    }
}

/// Builds the buffer of one stream, frame by frame.
pub struct Reassembler {
    buffer: Vec<u8>,
    frames: u64,
}

impl View for Reassembler {
    /// The bytes gathered so far, and whether a frame that carries something
    /// has been taken.
    type V = (Seq<u8>, bool);

    closed spec fn view(&self) -> (Seq<u8>, bool) {
        (self.buffer@, self.frames > 0)
    }
}

impl Reassembler {
    pub fn new() -> (r: Reassembler)
        ensures
            r@ == (Seq::<u8>::empty(), false),
    {
        Reassembler { buffer: Vec::new(), frames: 0 }
    }

    /// Takes a metadata frame whose header, written as JSON, is `header`.
    pub fn accept_metadata(&mut self, size: u64, header: &String) -> (r: Result<(), ReassembleError>)
        ensures
            old(self)@.1 ==> r == Err::<(), _>(ReassembleError::RepeatedMetadata) && final(self)@
                == old(self)@,
            !old(self)@.1 ==> r is Ok && final(self)@ == (framed_header(header@), true),
    {
        if self.frames != 0 {
            return Err(ReassembleError::RepeatedMetadata);
        }
        let mut buffer = frame_header(header);
        if size as u128 <= usize::MAX as u128 {
            let _ = buffer.try_reserve(size as usize);
        }
        self.buffer = buffer;
        self.frames = 1;
        Ok(())
    }

    /// Takes a data frame: its bytes are appended, unless no metadata frame
    /// came before.
    pub fn accept_data(&mut self, data: Vec<u8>) -> (r: Result<(), ReassembleError>)
        ensures
            !old(self)@.1 ==> r == Err::<(), _>(ReassembleError::DataBeforeMetadata)
                && final(self)@ == old(self)@,
            old(self)@.1 ==> r is Ok && final(self)@ == (old(self)@.0 + data@, true),
    {
        if self.frames == 0 {
            return Err(ReassembleError::DataBeforeMetadata);
        }
        let mut data = data;
        self.buffer.append(&mut data);
        if self.frames < u64::MAX {
            self.frames = self.frames + 1;
        }
        Ok(())
    }

    /// Takes one frame: the state moves as `accept_of` says, and on a protocol
    /// error nothing changes.
    pub fn push(&mut self, frame: FileContent) -> (r: Result<(), ReassembleError>)
        ensures
            match accept_of(old(self)@.0, old(self)@.1, frame_of(frame)) {
                Ok(next) => r is Ok && final(self)@ == next,
                Err(e) => r == Err::<(), ReassembleError>(e) && final(self)@ == old(self)@,
            },
    {
        match frame.content {
            None => Ok(()),
            Some(Content::Data(d)) => self.accept_data(d),
            Some(Content::Metadata(m)) => {
                if self.frames != 0 {
                    return Err(ReassembleError::RepeatedMetadata);
                }
                match json_string(&m.mime_type) {
                    Ok(quoted) => {
                        let header = header_from_json(&quoted);
                        self.accept_metadata(m.size, &header)
                    },
                    Err(_) => vstd::pervasive::unreached(),
                }
            },
        }
    }

    /// The buffer built so far.
    pub fn finish(self) -> (r: Vec<u8>)
        ensures
            r@ == self@.0,
    {
        self.buffer
    }
}

proof fn lemma_reassembled_step(fs: Seq<Frame>, i: int, buf: Seq<u8>)
    requires
        0 <= i < fs.len(),
        reassembled(fs.take(i)) == Ok::<Seq<u8>, ReassembleError>(buf),
    ensures
        fs.take(i + 1).drop_last() == fs.take(i),
        fs.take(i + 1).last() == fs[i],
        reassembled(fs.take(i + 1)) == match accept_of(buf, seen(fs.take(i)) > 0, fs[i]) {
            Ok((b, _)) => Ok::<Seq<u8>, ReassembleError>(b),
            Err(e) => Err(e),
        },
        accept_of(buf, seen(fs.take(i)) > 0, fs[i]) matches Ok((_, st)) ==> st == (seen(
            fs.take(i + 1),
        ) > 0),
{
    assert(fs.take(i + 1).drop_last() =~= fs.take(i));
}

proof fn lemma_reassembled_error_stays(fs: Seq<Frame>, k: int, e: ReassembleError)
    requires
        0 <= k <= fs.len(),
        reassembled(fs.take(k)) == Err::<Seq<u8>, ReassembleError>(e),
    ensures
        reassembled(fs) == Err::<Seq<u8>, ReassembleError>(e),
    decreases fs.len() - k,
{
    if k == fs.len() {
        assert(fs.take(k) =~= fs);
    } else {
        let pre = fs.drop_last();
        assert(pre.take(k) =~= fs.take(k));
        lemma_reassembled_error_stays(pre, k, e);
    }
}

/// Reassembles a whole stream into one buffer. The first frame that carries
/// something must be the metadata frame and no later one may be; on such an
/// error no buffer is returned.
pub fn reassemble(frames: Vec<FileContent>) -> (r: Result<Vec<u8>, ReassembleError>)
    ensures
        match reassembled(frames_of(frames@)) {
            Ok(b) => r matches Ok(buf) && buf@ == b,
            Err(e) => r == Err::<Vec<u8>, ReassembleError>(e),
        },
{
    let ghost fs = frames_of(frames@);
    let mut re = Reassembler::new();
    let n = frames.len();
    let ghost orig = frames@;
    let mut pending = frames;
    let mut i: usize = 0;
    proof {
        assert(fs.take(0) =~= Seq::<Frame>::empty());
    }
    while i < n
        invariant
            n == fs.len(),
            i <= n,
            fs == frames_of(orig),
            orig == frames@,
            pending@.len() == n,
            forall|j: int| i <= j < n ==> pending@[j] == orig[j],
            reassembled(fs.take(i as int)) == Ok::<Seq<u8>, ReassembleError>(re@.0),
            re@.1 == (seen(fs.take(i as int)) > 0),
        decreases n - i,
    {
        let mut f = FileContent { content: None };
        std::mem::swap(&mut f, &mut pending[i]);
        assert(fs[i as int] == frame_of(f));
        proof {
            lemma_reassembled_step(fs, i as int, re@.0);
        }
        let r = re.push(f);
        if let Err(e) = r {
            proof {
                lemma_reassembled_error_stays(fs, i + 1, e);
            }
            return Err(e);
        }
        i += 1;
    }
    proof {
        assert(fs.take(n as int) =~= fs);
    }
    Ok(re.finish())
}

proof fn lemma_reassembled_data(meta: Frame, data: Seq<Frame>)
    requires
        meta is Metadata,
        forall|i: int| 0 <= i < data.len() ==> #[trigger] data[i] is Data,
    ensures
        seen(seq![meta] + data) > 0,
        reassembled(seq![meta] + data) == Ok::<Seq<u8>, ReassembleError>(
            framed_header(header_object(json_string_of(meta->mime))) + payload(data),
        ),
    decreases data.len(),
{
    let head = framed_header(header_object(json_string_of(meta->mime)));
    let fs = seq![meta] + data;
    if data.len() == 0 {
        assert(fs =~= seq![meta]);
        assert(fs.drop_last() =~= Seq::<Frame>::empty());
        assert(head + payload(data) =~= head);
    } else {
        let pre = data.drop_last();
        assert(fs.drop_last() =~= seq![meta] + pre);
        assert forall|i: int| 0 <= i < pre.len() implies #[trigger] pre[i] is Data by {
            assert(pre[i] == data[i]);
        }
        lemma_reassembled_data(meta, pre);
        assert(data.last() is Data);
        assert(fs.last() == data.last());
        assert(seen(fs.drop_last()) > 0);
        assert(reassembled(fs.drop_last()) == Ok::<Seq<u8>, ReassembleError>(head + payload(pre)));
        assert(payload(data) == payload(pre) + data.last()->Data_0);
        assert(head + payload(pre) + data.last()->Data_0 =~= head + payload(data));
    }
}

/// Round trip of the framed buffer: reassembling a stream made of a metadata
/// frame and then data frames succeeds; the first eight bytes of the buffer
/// decode as a big-endian number N, the bytes from 8 to 8 + N are the JSON
/// header written for the announced media type, and the bytes after them are
/// the data payloads in arrival order, which for a file read whole are its
/// bytes.
pub proof fn lemma_framed_buffer_round_trip(mime: Seq<char>, size: u64, data: Seq<Frame>)
    requires
        forall|i: int| 0 <= i < data.len() ==> #[trigger] data[i] is Data,
        encode_utf8(header_object(json_string_of(mime))).len() <= u64::MAX,
    ensures
        reassembled(seq![Frame::Metadata { mime, size }] + data) is Ok,
        ({
            let buf = reassembled(seq![Frame::Metadata { mime, size }] + data)->Ok_0;
            let n = be_value(buf) as int;
            &&& 8 + n <= buf.len()
            &&& buf.subrange(8, 8 + n) == encode_utf8(header_object(json_string_of(mime)))
            &&& buf.subrange(8 + n, buf.len() as int) == payload(data)
        }),
{
    let meta = Frame::Metadata { mime, size };
    lemma_reassembled_data(meta, data);
    let header = encode_utf8(header_object(json_string_of(mime)));
    let len = header.len() as u64;
    let buf = reassembled(seq![meta] + data)->Ok_0;
    assert(buf == be_bytes(len) + header + payload(data));
    assert(buf.subrange(0, 8) =~= be_bytes(len));
    lemma_be_round_trip(len);
    assert(be_value(buf) == be_value(be_bytes(len)));
    assert(buf.subrange(8, 8 + len as int) =~= header);
    assert(buf.subrange(8 + len as int, buf.len() as int) =~= payload(data));
}

/// The stream of a file that did not change while it was read reassembles
/// into a buffer whose part after the header is exactly the file's bytes.
pub proof fn lemma_file_round_trip(d: Seq<u8>)
    requires
        d.len() <= u64::MAX,
        encode_utf8(header_object(json_string_of(crate::stream::placeholder_mime()))).len()
            <= u64::MAX,
    ensures
        reassembled(file_frames(d)) is Ok,
        ({
            let buf = reassembled(file_frames(d))->Ok_0;
            let n = be_value(buf) as int;
            &&& 8 + n <= buf.len()
            &&& buf.subrange(8, 8 + n) == encode_utf8(
                header_object(json_string_of(crate::stream::placeholder_mime())),
            )
            &&& buf.subrange(8 + n, buf.len() as int) == d
        }),
{
    let fs = file_frames(d);
    let data = crate::stream::data_frames(d);
    crate::stream::lemma_stream_starts_with_metadata(d);
    assert(fs =~= seq![fs[0]] + data);
    crate::stream::lemma_data_frames_payload(d);
    lemma_framed_buffer_round_trip(crate::stream::placeholder_mime(), d.len() as u64, data);
}

} // verus!
