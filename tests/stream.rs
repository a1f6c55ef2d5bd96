use portal::proto::{Content, FileContent};
use portal::stream::{
    metadata_frame, stream_file, FrameProducer, Phase, StreamAction, StreamEvent, StreamFault,
    CHUNK_SIZE,
};

fn data_len(f: &FileContent) -> usize {
    match &f.content {
        Some(Content::Data(d)) => d.len(),
        _ => panic!("not a data frame"),
    }
}

fn metadata_size(f: &FileContent) -> u64 {
    match &f.content {
        Some(Content::Metadata(m)) => m.size,
        _ => panic!("not a metadata frame"),
    }
}

#[test]
fn two_and_a_half_chunks() {
    let n = CHUNK_SIZE * 5 / 2;
    let data: Vec<u8> = (0..n).map(|i| (i % 251) as u8).collect();
    let frames = stream_file(&data);
    assert_eq!(frames.len(), 4);
    assert_eq!(metadata_size(&frames[0]), n as u64);
    assert_eq!(data_len(&frames[1]), 1024 * 1024);
    assert_eq!(data_len(&frames[2]), 1024 * 1024);
    assert_eq!(data_len(&frames[3]), 512 * 1024);
}

#[test]
fn payloads_concatenate_to_file() {
    let n = CHUNK_SIZE + 7;
    let data: Vec<u8> = (0..n).map(|i| (i % 13) as u8).collect();
    let frames = stream_file(&data);
    let mut joined = Vec::new();
    for f in &frames[1..] {
        if let Some(Content::Data(d)) = &f.content {
            joined.extend_from_slice(d);
        }
    }
    assert_eq!(joined, data);
}

#[test]
fn empty_file_gives_metadata_only() {
    let frames = stream_file(&vec![]);
    assert_eq!(frames.len(), 1);
    assert_eq!(metadata_size(&frames[0]), 0);
}

#[test]
fn exact_chunk_gives_one_data_frame() {
    let data = vec![1u8; CHUNK_SIZE];
    let frames = stream_file(&data);
    assert_eq!(frames.len(), 2);
    assert_eq!(data_len(&frames[1]), CHUNK_SIZE);
}

#[test]
fn metadata_frame_has_placeholder_type() {
    match metadata_frame(42).content {
        Some(Content::Metadata(m)) => {
            assert_eq!(m.mime_type, "image/jpeg");
            assert_eq!(m.size, 42);
        }
        _ => panic!("not a metadata frame"),
    }
}

#[test]
fn producer_runs_in_order() {
    let mut p = FrameProducer::new();
    match p.step(StreamEvent::Opened(3)) {
        StreamAction::Send(f) => assert_eq!(metadata_size(&f), 3),
        _ => panic!("expected metadata"),
    }
    match p.step(StreamEvent::Read(vec![1, 2, 3])) {
        StreamAction::Send(f) => assert_eq!(data_len(&f), 3),
        _ => panic!("expected data"),
    }
    assert!(matches!(p.step(StreamEvent::Read(vec![])), StreamAction::Finish));
    assert!(p.phase == Phase::Closed);
    assert!(matches!(p.step(StreamEvent::Read(vec![9])), StreamAction::Finish));
}

#[test]
fn producer_reports_read_failure() {
    let mut p = FrameProducer::new();
    let _ = p.step(StreamEvent::Opened(10));
    match p.step(StreamEvent::Failed("disk".to_string())) {
        StreamAction::Fail(StreamFault::Io(m)) => assert_eq!(m, "disk"),
        _ => panic!("expected a failure"),
    }
    assert!(p.phase == Phase::Closed);
}

#[test]
fn producer_rejects_read_before_open() {
    let mut p = FrameProducer::new();
    assert!(matches!(
        p.step(StreamEvent::Read(vec![1])),
        StreamAction::Fail(StreamFault::OutOfOrder)
    ));
}

#[test]
fn producer_reports_open_failure() {
    let mut p = FrameProducer::new();
    assert!(matches!(
        p.step(StreamEvent::Failed("missing".to_string())),
        StreamAction::Fail(StreamFault::Io(_))
    ));
}

#[test]
fn uneven_reads_concatenate() {
    let mut p = FrameProducer::new();
    let mut sent = Vec::new();
    let mut frames = 0;
    for event in [
        StreamEvent::Opened(8),
        StreamEvent::Read(vec![1, 2, 3]),
        StreamEvent::Read(vec![4, 5, 6, 7, 8]),
        StreamEvent::Read(vec![]),
    ] {
        match p.step(event) {
            StreamAction::Send(f) => {
                frames += 1;
                if let Some(Content::Data(d)) = f.content {
                    sent.extend(d);
                }
            }
            StreamAction::Finish => break,
            StreamAction::Fail(_) => panic!("unexpected failure"),
        }
    }
    assert_eq!(frames, 3);
    assert_eq!(sent, vec![1, 2, 3, 4, 5, 6, 7, 8]);
}
