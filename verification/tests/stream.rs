use yunet_stream::mjpeg::{content_type, mjpeg_message, mjpeg_part};
use yunet_stream::session::{next_step, Event, Step, QUIT_KEY};

#[test]
fn a_part_has_headers_and_the_frame() {
    let part = mjpeg_part(&[0xff, 0xd8, 0xff, 0xd9]);
    assert_eq!(
        part,
        b"--frame\r\nContent-Type: image/jpeg\r\nContent-Length: 4\r\n\r\n\xff\xd8\xff\xd9\r\n".to_vec()
    );
}

#[test]
fn lengths_are_decimal() {
    for n in [0usize, 1, 9, 10, 11, 99, 100, 101, 65535, 100000, 1234567] {
        let jpeg = vec![7u8; n];
        let part = mjpeg_part(&jpeg);
        let mut expected = b"--frame\r\nContent-Type: image/jpeg\r\nContent-Length: ".to_vec();
        expected.extend(n.to_string().as_bytes());
        expected.extend(b"\r\n\r\n");
        expected.extend_from_slice(&jpeg);
        expected.extend(b"\r\n");
        assert_eq!(part, expected);
    }
}

#[test]
fn messages_hold_the_part() {
    let jpeg = b"--frame\r\n";
    let message = mjpeg_message(jpeg);
    assert_eq!(message.as_ref(), &mjpeg_part(jpeg)[..]);
    assert_ne!(message.as_ref(), &jpeg[..]);
}

/// Reads the first part of a stream.
fn read_part(stream: &[u8]) -> (Vec<u8>, &[u8]) {
    let head = b"--frame\r\nContent-Type: image/jpeg\r\nContent-Length: ";
    assert_eq!(&stream[..head.len()], &head[..]);
    let rest = &stream[head.len()..];
    let digits = rest.iter().position(|&c| c == b'\r').unwrap();
    let n: usize = String::from_utf8(rest[..digits].to_vec()).unwrap().parse().unwrap();
    let body = &rest[digits + 4..];
    (body[..n].to_vec(), &body[n + 2..])
}

#[test]
fn a_stream_of_parts_can_be_read_back() {
    let frames: Vec<Vec<u8>> = vec![
        b"\r\n--frame\r\n".to_vec(),
        Vec::new(),
        (0..=255).collect(),
        b"12345\r\n\r\n".to_vec(),
    ];
    let stream: Vec<u8> = frames.iter().flat_map(|frame| mjpeg_part(frame)).collect();
    let mut rest = &stream[..];
    for frame in &frames {
        let (read, after) = read_part(rest);
        assert_eq!(&read, frame);
        rest = after;
    }
    assert!(rest.is_empty());
}

#[test]
fn the_announced_boundary_starts_every_part() {
    assert_eq!(content_type(), "multipart/x-mixed-replace; boundary=frame");
    let boundary = content_type().split("boundary=").nth(1).unwrap();
    let start = format!("--{}\r\n", boundary);
    assert!(mjpeg_part(b"x").starts_with(start.as_bytes()));
}

#[test]
fn the_camera_must_be_open() {
    assert_eq!(next_step(Step::Open, Event::Opened { ready: true }), Step::Capture);
    assert_eq!(next_step(Step::Open, Event::Opened { ready: false }), Step::Fail);
    assert_eq!(next_step(Step::Open, Event::Failed), Step::Fail);
}

#[test]
fn unreadable_frames_are_skipped() {
    for (read, empty, step) in [
        (true, false, Step::Detect),
        (true, true, Step::Capture),
        (false, false, Step::Capture),
        (false, true, Step::Capture),
    ] {
        assert_eq!(next_step(Step::Capture, Event::Captured { read, empty }), step);
    }
    assert_eq!(next_step(Step::Capture, Event::Failed), Step::Fail);
}

#[test]
fn frames_are_compressed_for_viewers_only() {
    assert_eq!(next_step(Step::Detect, Event::Detected { receivers: 0 }), Step::Show);
    assert_eq!(next_step(Step::Detect, Event::Detected { receivers: 1 }), Step::Encode);
    assert_eq!(next_step(Step::Detect, Event::Failed), Step::Fail);
    assert_eq!(next_step(Step::Encode, Event::Encoded), Step::Broadcast);
    assert_eq!(next_step(Step::Encode, Event::Failed), Step::Show);
    assert_eq!(next_step(Step::Broadcast, Event::Sent), Step::Show);
}

#[test]
fn only_the_quit_key_ends_the_session() {
    assert_eq!(QUIT_KEY, b'q' as i32);
    assert_eq!(next_step(Step::Show, Event::Shown), Step::AwaitKey);
    assert_eq!(next_step(Step::Show, Event::Failed), Step::Fail);
    for code in [-1, 0, b'Q' as i32, b'w' as i32, 27] {
        assert_eq!(next_step(Step::AwaitKey, Event::Key { code }), Step::Capture);
    }
    assert_eq!(next_step(Step::AwaitKey, Event::Key { code: b'q' as i32 }), Step::Stop);
    assert_eq!(next_step(Step::AwaitKey, Event::Failed), Step::Fail);
}

#[test]
fn a_frame_with_viewers_takes_its_course() {
    let events = [
        Event::Opened { ready: true },
        Event::Captured { read: false, empty: true },
        Event::Captured { read: true, empty: false },
        Event::Detected { receivers: 2 },
        Event::Encoded,
        Event::Sent,
        Event::Shown,
        Event::Key { code: QUIT_KEY },
    ];
    let mut steps = vec![Step::Open];
    for event in events {
        steps.push(next_step(*steps.last().unwrap(), event));
    }
    assert_eq!(
        steps,
        vec![
            Step::Open,
            Step::Capture,
            Step::Capture,
            Step::Detect,
            Step::Encode,
            Step::Broadcast,
            Step::Show,
            Step::AwaitKey,
            Step::Stop,
        ]
    );
}

#[test]
fn a_frame_that_cannot_be_shown_ends_the_session() {
    let step = next_step(Step::Detect, Event::Detected { receivers: 0 });
    assert_eq!(step, Step::Show);
    assert_eq!(next_step(step, Event::Failed), Step::Fail);
    let step = next_step(next_step(Step::Detect, Event::Detected { receivers: 1 }), Event::Failed);
    assert_eq!(step, Step::Show);
    assert_eq!(next_step(step, Event::Failed), Step::Fail);
}
