use portal::proto::{Content, FileContent, FileMetadata};
use portal::reassemble::{
    frame_header, header_from_json, reassemble, u64_be_bytes, ReassembleError, Reassembler,
};
use portal::stream::stream_file;

fn meta(mime: &str, size: u64) -> FileContent {
    FileContent {
        content: Some(Content::Metadata(FileMetadata { mime_type: mime.to_string(), size })),
    }
}

fn data(bytes: &[u8]) -> FileContent {
    FileContent { content: Some(Content::Data(bytes.to_vec())) }
}

#[test]
fn data_before_metadata_fails() {
    let r = reassemble(vec![data(b"abc"), meta("image/jpeg", 3)]);
    assert_eq!(r, Err(ReassembleError::DataBeforeMetadata));
}

#[test]
fn repeated_metadata_fails() {
    let r = reassemble(vec![meta("a", 1), data(b"x"), meta("a", 1)]);
    assert_eq!(r, Err(ReassembleError::RepeatedMetadata));
}

#[test]
fn buffer_layout() {
    let r = reassemble(vec![meta("image/jpeg", 5), data(b"he"), data(b"llo")]).unwrap();
    let header = b"{\"mimeType\":\"image/jpeg\"}";
    let mut expected = (header.len() as u64).to_be_bytes().to_vec();
    expected.extend_from_slice(header);
    expected.extend_from_slice(b"hello");
    assert_eq!(r, expected);
}

#[test]
fn header_escapes_media_type() {
    let r = reassemble(vec![meta("a\"b", 0)]).unwrap();
    let header = b"{\"mimeType\":\"a\\\"b\"}";
    let mut expected = (header.len() as u64).to_be_bytes().to_vec();
    expected.extend_from_slice(header);
    assert_eq!(r, expected);
}

#[test]
fn frames_without_content_are_skipped() {
    let r = reassemble(vec![FileContent { content: None }, meta("t", 1), FileContent { content: None }, data(b"z")])
        .unwrap();
    assert_eq!(*r.last().unwrap(), b'z');
    let r = reassemble(vec![FileContent { content: None }, data(b"z")]);
    assert_eq!(r, Err(ReassembleError::DataBeforeMetadata));
}

#[test]
fn empty_stream_gives_empty_buffer() {
    assert_eq!(reassemble(vec![]), Ok(vec![]));
}

#[test]
fn round_trip_through_stream() {
    let file: Vec<u8> = (0..3000u32).map(|i| (i * 7 % 256) as u8).collect();
    let buf = reassemble(stream_file(&file)).unwrap();
    let mut len = [0u8; 8];
    len.copy_from_slice(&buf[..8]);
    let n = u64::from_be_bytes(len) as usize;
    assert_eq!(&buf[8..8 + n], b"{\"mimeType\":\"image/jpeg\"}");
    assert_eq!(&buf[8 + n..], &file[..]);
}

#[test]
fn big_endian_bytes() {
    assert_eq!(u64_be_bytes(0x0102030405060708), vec![1, 2, 3, 4, 5, 6, 7, 8]);
    assert_eq!(u64_be_bytes(25), vec![0, 0, 0, 0, 0, 0, 0, 25]);
}

#[test]
fn header_text_and_frame() {
    let h = header_from_json(&"\"x\"".to_string());
    assert_eq!(h, "{\"mimeType\":\"x\"}");
    let f = frame_header(&h);
    assert_eq!(f.len(), 8 + h.len());
    assert_eq!(f[7] as usize, h.len());
    assert_eq!(&f[8..], h.as_bytes());
}

#[test]
fn reassembler_rejects_and_keeps_state() {
    let mut r = Reassembler::new();
    assert_eq!(r.push(data(b"q")), Err(ReassembleError::DataBeforeMetadata));
    assert_eq!(r.push(meta("m", 2)), Ok(()));
    assert_eq!(r.push(meta("m", 2)), Err(ReassembleError::RepeatedMetadata));
    assert_eq!(r.push(data(b"ok")), Ok(()));
    let buf = r.finish();
    assert_eq!(&buf[buf.len() - 2..], b"ok");
}
