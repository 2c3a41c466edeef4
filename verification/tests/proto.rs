use ireul::codec::str_eq;
use ireul::frame::{
    close_frame, decode_request, encode_response, frame_goodbye, frame_request, frame_response,
    read_frame, response_length, AnyRequest, AnyResponse, FrameStep, ProtocolError,
    BUFFER_SIZE_LIMIT,
};
use ireul::proto::{
    deserialize, expect_type, null_read, read_empty_struct, serialize, skip_entity,
    write_empty_struct, Cursor, Deserialize, ProtoError, Serialize, TYPE_STRUCT, TYPE_U32,
};
use ireul::proxy::{
    EnqueueTrackError, EnqueueTrackRequest, EnqueueTrackResult, FastForward, FastForwardError,
    FastForwardRequest, FastForwardResult, Queue, ReplaceFallbackError, ReplaceFallbackRequest,
    ReplaceFallbackResult, Request, RequestType, StatusError, StatusRequest, StatusResult,
};
use ireul::queue::{Handle, TrackInfo};

fn write<T: Serialize>(item: &T) -> Vec<u8> {
    let mut buffer = Vec::new();
    Serialize::write(item, &mut buffer).unwrap();
    buffer
}

fn read<T: Deserialize>(bytes: &[u8]) -> Result<(T, usize), ProtoError> {
    let mut cursor = Cursor::new(bytes);
    let value: T = deserialize(&mut cursor)?;
    Ok((value, bytes.len() - cursor.remaining()))
}

fn info(handle: u64, title: &str, started_at: Option<i64>) -> TrackInfo {
    TrackInfo {
        handle: Handle(handle),
        started_at,
        artist: "Ärtist".to_string(),
        album: String::new(),
        title: title.to_string(),
        sample_rate: 48000,
        sample_count: u64::MAX,
        sample_position: 12345,
    }
}

fn same_info(a: &TrackInfo, b: &TrackInfo) -> bool {
    a.handle == b.handle
        && a.started_at == b.started_at
        && a.artist == b.artist
        && a.album == b.album
        && a.title == b.title
        && a.sample_rate == b.sample_rate
        && a.sample_count == b.sample_count
        && a.sample_position == b.sample_position
}

#[test]
fn test_serialize() {
    let ok_val: EnqueueTrackResult = Ok(Handle(0xD825959D752F9A3E));
    assert_eq!(
        &write(&ok_val)[..],
        &[
            // Result::Ok type
            0x00, 0x85,
            // u64 type
            0x00, 0x83,
            // value of 0xD825959D752F9A3E_u64
            0xd8, 0x25, 0x95, 0x9d, 0x75, 0x2f, 0x9a, 0x3e
        ]
    );

    let err_inv_track: EnqueueTrackResult = Err(EnqueueTrackError::InvalidTrack);
    assert_eq!(
        &write(&err_inv_track)[..],
        &[
            // Result::Err type
            0x00, 0x86,
            // u32 type
            0x00, 0x82,
            // value of 1_u32
            0x00, 0x00, 0x00, 0x01,
        ]
    );

    let err_bad_samp: EnqueueTrackResult = Err(EnqueueTrackError::BadSampleRate);
    assert_eq!(
        &write(&err_bad_samp)[..],
        &[
            // Result::Err type
            0x00, 0x86,
            // u32 type
            0x00, 0x82,
            // value of 2_u32
            0x00, 0x00, 0x00, 0x02,
        ]
    );

    let err_full: EnqueueTrackResult = Err(EnqueueTrackError::Full);
    assert_eq!(
        &write(&err_full)[..],
        &[
            // Result::Err type
            0x00, 0x86,
            // u32 type
            0x00, 0x82,
            // value of 3_u32
            0x00, 0x00, 0x00, 0x03,
        ]
    );
}

#[test]
fn values_are_written_with_tag_and_big_endian_numbers() {
    assert_eq!(write(&()), vec![0x00, 0x80]);
    assert_eq!(write(&0x1234u16), vec![0x00, 0x81, 0x12, 0x34]);
    assert_eq!(write(&0x1234_5678u32), vec![0x00, 0x82, 0x12, 0x34, 0x56, 0x78]);
    assert_eq!(
        write(&0x0102_0304_0506_0708u64),
        vec![0x00, 0x83, 1, 2, 3, 4, 5, 6, 7, 8]
    );
    assert_eq!(write(&"hé".to_string()), vec![0x00, 0x84, 0, 0, 0, 3, b'h', 0xc3, 0xa9]);
    assert_eq!(write(&vec![9u8, 8, 7]), vec![0x00, 0x02, 0, 0, 0, 3, 9, 8, 7]);
    assert_eq!(
        write(&("a".to_string(), "".to_string())),
        vec![0x00, 0x87, 0, 0, 0, 2, 0x00, 0x84, 0, 0, 0, 1, b'a', 0x00, 0x84, 0, 0, 0, 0]
    );
    assert_eq!(
        write(&vec![1u16, 2u16]),
        vec![0x00, 0x00, 0, 0, 0, 2, 0x00, 0x81, 0, 1, 0x00, 0x81, 0, 2]
    );
    let mut empty = Vec::new();
    write_empty_struct(&mut empty).unwrap();
    assert_eq!(empty, vec![0x00, 0x05, 0, 0, 0, 0]);
    assert_eq!(write(&StatusRequest), empty);
    assert_eq!(write(&FastForward::TrackBoundary), vec![0x00, 0x82, 0, 0, 0, 0]);
    assert_eq!(
        write(&FastForwardRequest { kind: FastForward::TrackBoundary }),
        vec![0x00, 0x05, 0, 0, 0, 1, 0x00, 0x84, 0, 0, 0, 4, b'k', b'i', b'n', b'd', 0x00, 0x82, 0, 0, 0, 0]
    );
    assert_eq!(serialize(&7u32), Ok(vec![0x00, 0x82, 0, 0, 0, 7]));
}

#[test]
fn values_read_back_as_written_and_leave_what_follows() {
    fn check<T: Serialize + Deserialize + PartialEq + std::fmt::Debug>(value: T) {
        let mut bytes = write(&value);
        let len = bytes.len();
        bytes.extend_from_slice(&[0xaa, 0xbb]);
        assert_eq!(read::<T>(&bytes), Ok((value, len)));
        let mut cursor = Cursor::new(&bytes);
        assert_eq!(skip_entity(&mut cursor), Ok(()));
        assert_eq!(cursor.remaining(), 2);
        for cut in 0..len {
            assert_eq!(read::<T>(&bytes[..cut]).err(), Some(ProtoError::Truncated));
        }
    }
    check(());
    check(0u16);
    check(0xffffu16);
    check(0xdead_beefu32);
    check(u64::MAX);
    check(String::new());
    check("text with ünïcödé".to_string());
    check(vec![0u8, 255, 3]);
    check(Vec::<u8>::new());
    check(("key".to_string(), "value".to_string()));
    check(vec![("a".to_string(), "b".to_string()), ("c".to_string(), "".to_string())]);
    check(vec![vec![1u32, 2], vec![], vec![3]]);
    check(Handle(42));
    check(EnqueueTrackError::InvalidTrack);
    check(EnqueueTrackError::BadSampleRate);
    check(EnqueueTrackError::Full);
    check(ReplaceFallbackError::InvalidTrack);
    check(ReplaceFallbackError::BadSampleRate);
    check(ReplaceFallbackError::Full);
    check(FastForward::TrackBoundary);
    check(FastForwardError);
    check(StatusError);
    check(StatusRequest);
    check(FastForwardRequest { kind: FastForward::TrackBoundary });
    let ok: EnqueueTrackResult = Ok(Handle(1));
    check(ok);
    let err: EnqueueTrackResult = Err(EnqueueTrackError::Full);
    check(err);
    let ff: FastForwardResult = Ok(());
    check(ff);
    let ff: FastForwardResult = Err(FastForwardError);
    check(ff);
    let rf: ReplaceFallbackResult = Err(ReplaceFallbackError::BadSampleRate);
    check(rf);
}

#[test]
fn track_infos_and_queues_read_back_as_written() {
    for started_at in [None, Some(0), Some(1_700_000_000), Some(-5), Some(i64::MIN), Some(i64::MAX)] {
        let value = info(0xfeed, "Title", started_at);
        let mut bytes = write(&value);
        let len = bytes.len();
        bytes.push(0x55);
        let (back, used) = read::<TrackInfo>(&bytes).unwrap();
        assert!(same_info(&back, &value));
        assert_eq!(used, len);
        let mut cursor = Cursor::new(&bytes);
        assert_eq!(skip_entity(&mut cursor), Ok(()));
        assert_eq!(cursor.remaining(), 1);
    }
    let queue = Queue {
        upcoming: vec![info(1, "a", Some(9)), info(2, "b", None)],
        history: vec![info(3, "c", None)],
    };
    let bytes = write(&queue);
    let (back, used) = read::<Queue>(&bytes).unwrap();
    assert_eq!(used, bytes.len());
    assert_eq!(back.upcoming.len(), 2);
    assert_eq!(back.history.len(), 1);
    assert!(same_info(&back.upcoming[0], &queue.upcoming[0]));
    assert!(same_info(&back.upcoming[1], &queue.upcoming[1]));
    assert!(same_info(&back.history[0], &queue.history[0]));
    let status: StatusResult = Ok(queue);
    let bytes = write(&status);
    let (back, _) = read::<StatusResult>(&bytes).unwrap();
    assert_eq!(back.unwrap().upcoming[1].title, "b");
    let status: StatusResult = Err(StatusError);
    assert!(read::<StatusResult>(&write(&status)).unwrap().0.is_err());
}

#[test]
fn requests_read_back_as_written() {
    let req = EnqueueTrackRequest {
        track: vec![1, 2, 3],
        metadata: Some(vec![("TITLE".to_string(), "x".to_string())]),
    };
    assert_eq!(req.req_type(), RequestType::EnqueueTrack);
    let bytes = write(&req);
    let (back, used) = read::<EnqueueTrackRequest>(&bytes).unwrap();
    assert_eq!(used, bytes.len());
    assert_eq!(back.track, req.track);
    assert_eq!(back.metadata, req.metadata);
    let req = ReplaceFallbackRequest { track: vec![], metadata: None };
    assert_eq!(req.req_type(), RequestType::ReplaceFallback);
    let bytes = write(&req);
    assert_eq!(
        bytes,
        vec![0x00, 0x05, 0, 0, 0, 1, 0x00, 0x84, 0, 0, 0, 5, b't', b'r', b'a', b'c', b'k', 0x00, 0x02, 0, 0, 0, 0]
    );
    let (back, _) = read::<ReplaceFallbackRequest>(&bytes).unwrap();
    assert_eq!(back.track, Vec::<u8>::new());
    assert_eq!(back.metadata, None);
    assert_eq!(StatusRequest.req_type(), RequestType::QueueStatus);
    assert_eq!(
        FastForwardRequest { kind: FastForward::TrackBoundary }.req_type(),
        RequestType::FastForward
    );
}

fn field(name: &str, value: &[u8]) -> Vec<u8> {
    let mut out = write(&name.to_string());
    out.extend_from_slice(value);
    out
}

fn structure(fields: &[Vec<u8>]) -> Vec<u8> {
    let mut out = vec![0x00, 0x05];
    out.extend_from_slice(&(fields.len() as u32).to_be_bytes());
    for f in fields {
        out.extend_from_slice(f);
    }
    out
}

#[test]
fn unknown_struct_fields_are_passed_over() {
    let nested = structure(&[
        field("list", &write(&vec![("a".to_string(), "b".to_string())])),
        field("result", &write::<EnqueueTrackResult>(&Err(EnqueueTrackError::Full))),
        field("nothing", &write(&())),
        field("blob", &write(&vec![1u8, 2, 3])),
        field("short", &write(&7u16)),
        field("long", &write(&7u64)),
    ]);
    let body = structure(&[
        field("priority", &write(&5u32)),
        field("track", &write(&vec![9u8, 9])),
        field("extra", &nested),
    ]);
    let mut bytes = body.clone();
    bytes.extend_from_slice(b"behind");
    let (req, used) = read::<EnqueueTrackRequest>(&bytes).unwrap();
    assert_eq!(used, body.len());
    assert_eq!(req.track, vec![9u8, 9]);
    assert_eq!(req.metadata, None);

    let mut cursor = Cursor::new(&bytes);
    assert_eq!(read_empty_struct(&mut cursor), Ok(()));
    assert_eq!(cursor.remaining(), 6);
    let (_, used) = read::<StatusRequest>(&bytes).unwrap();
    assert_eq!(used, body.len());

    let twice = structure(&[
        field("kind", &write(&0u32)),
        field("kind", &write(&0u32)),
    ]);
    assert_eq!(
        read::<FastForwardRequest>(&twice),
        Ok((FastForwardRequest { kind: FastForward::TrackBoundary }, twice.len()))
    );
    let last_wins = structure(&[field("track", &write(&vec![1u8])), field("track", &write(&vec![2u8]))]);
    assert_eq!(read::<EnqueueTrackRequest>(&last_wins).unwrap().0.track, vec![2u8]);
    let no_history = structure(&[field("upcoming", &write(&Vec::<TrackInfo>::new()))]);
    let (queue, _) = read::<Queue>(&no_history).unwrap();
    assert!(queue.upcoming.is_empty() && queue.history.is_empty());
}

#[test]
fn reading_fails_with_the_reason() {
    assert_eq!(read::<u32>(&[0x00, 0x81, 0, 0, 0, 0]).err(), Some(ProtoError::UnexpectedType));
    assert_eq!(read::<()>(&[0x00, 0x82]).err(), Some(ProtoError::UnexpectedType));
    assert_eq!(read::<String>(&[0x00, 0x84, 0, 0, 0, 1, 0xff]).err(), Some(ProtoError::InvalidString));
    assert_eq!(read::<String>(&[0x00, 0x84, 0, 0, 0, 2, b'a']).err(), Some(ProtoError::Truncated));
    assert_eq!(read::<Vec<u8>>(&[0x00, 0x02, 0xff, 0xff, 0xff, 0xff, 1]).err(), Some(ProtoError::Truncated));
    assert_eq!(
        read::<(String, String)>(&[0x00, 0x87, 0, 0, 0, 3]).err(),
        Some(ProtoError::UnexpectedLength)
    );
    assert_eq!(read::<EnqueueTrackError>(&write(&0u32)).err(), Some(ProtoError::BadValue));
    assert_eq!(read::<EnqueueTrackError>(&write(&4u32)).err(), Some(ProtoError::BadValue));
    assert_eq!(read::<ReplaceFallbackError>(&write(&9u32)).err(), Some(ProtoError::BadValue));
    assert_eq!(read::<FastForward>(&write(&1u32)).err(), Some(ProtoError::BadValue));
    assert_eq!(read::<EnqueueTrackResult>(&write(&1u32)).err(), Some(ProtoError::UnexpectedType));
    assert_eq!(
        read::<EnqueueTrackRequest>(&structure(&[])).err(),
        Some(ProtoError::MissingField)
    );
    assert_eq!(
        read::<FastForwardRequest>(&structure(&[field("other", &write(&0u32))])).err(),
        Some(ProtoError::MissingField)
    );
    assert_eq!(
        read::<Queue>(&structure(&[field("history", &write(&Vec::<TrackInfo>::new()))])).err(),
        Some(ProtoError::MissingField)
    );
    let mut partial = info(1, "t", None);
    partial.title = String::new();
    let missing = structure(&[field("handle", &write(&1u64)), field("artist", &write(&String::new()))]);
    assert_eq!(read::<TrackInfo>(&missing).err(), Some(ProtoError::MissingField));
    assert_eq!(
        read::<Vec<u16>>(&[0x00, 0x00, 0, 0, 0, 2, 0x00, 0x81, 0, 1]).err(),
        Some(ProtoError::Truncated)
    );
    let mut cursor = Cursor::new(&[0x00, 0x01]);
    assert_eq!(skip_entity(&mut cursor), Err(ProtoError::UnknownType));
    let mut cursor = Cursor::new(&[0x00, 0x05, 0, 0, 0, 1, 0x00, 0x82, 0, 0, 0, 0]);
    assert_eq!(read_empty_struct(&mut cursor), Err(ProtoError::UnexpectedType));
    let mut cursor = Cursor::new(&[0x00, 0x82]);
    assert_eq!(expect_type(&mut cursor, TYPE_STRUCT), Err(ProtoError::UnexpectedType));
    let mut cursor = Cursor::new(&[0x00, 0x82, 1]);
    assert_eq!(expect_type(&mut cursor, TYPE_U32), Ok(()));
    assert_eq!(null_read(&mut cursor, 2), Err(ProtoError::Truncated));
    assert_eq!(null_read(&mut cursor, 1), Ok(()));
    assert_eq!(cursor.remaining(), 0);
    assert_eq!(cursor.take(1).err(), Some(ProtoError::Truncated));
}

#[test]
fn strings_compare_by_their_text() {
    assert!(str_eq("track", "track"));
    assert!(!str_eq("track", "tracks"));
    assert!(!str_eq("track", "trick"));
    assert!(str_eq("", ""));
}

#[test]
fn codes_stand_for_requests_and_errors() {
    assert_eq!(RequestType::from_op_code(0x1000), Ok(RequestType::EnqueueTrack));
    assert_eq!(RequestType::from_op_code(0x1001), Ok(RequestType::FastForward));
    assert_eq!(RequestType::from_op_code(0x1002), Ok(RequestType::QueueStatus));
    assert_eq!(RequestType::from_op_code(0x1003), Ok(RequestType::ReplaceFallback));
    assert_eq!(RequestType::from_op_code(0x1004), Err(()));
    assert_eq!(RequestType::from_op_code(0), Err(()));
    for kind in [
        RequestType::EnqueueTrack,
        RequestType::FastForward,
        RequestType::QueueStatus,
        RequestType::ReplaceFallback,
    ] {
        assert_eq!(RequestType::from_op_code(kind.to_op_code()), Ok(kind));
    }
    assert_eq!(EnqueueTrackError::InvalidTrack.to_u32(), 1);
    assert_eq!(EnqueueTrackError::BadSampleRate.to_u32(), 2);
    assert_eq!(EnqueueTrackError::Full.to_u32(), 3);
    assert_eq!(EnqueueTrackError::from_u32(2), Some(EnqueueTrackError::BadSampleRate));
    assert_eq!(EnqueueTrackError::from_u32(0), None);
    assert_eq!(ReplaceFallbackError::Full.to_u32(), 3);
    assert_eq!(ReplaceFallbackError::from_u32(1), Some(ReplaceFallbackError::InvalidTrack));
    assert_eq!(ReplaceFallbackError::from_u32(4), None);
    assert_eq!(FastForward::from_u32(0), Some(FastForward::TrackBoundary));
    assert_eq!(FastForward::from_u32(1), None);
    assert_eq!(FastForward::TrackBoundary.to_u32(), 0);
}

#[test]
fn frames_are_read_step_by_step() {
    assert_eq!(read_frame(&[]), FrameStep::NeedBytes(5));
    assert_eq!(read_frame(&[0, 0, 0, 0x10]), FrameStep::NeedBytes(5));
    assert_eq!(read_frame(&[1, 0, 0, 0x10, 0]), FrameStep::Invalid(ProtocolError::InvalidVersion));
    assert_eq!(read_frame(&[0, 0, 0, 0, 0]), FrameStep::Goodbye);
    assert_eq!(read_frame(&frame_goodbye()), FrameStep::Goodbye);
    assert_eq!(read_frame(&[0, 0, 0, 0x20, 0]), FrameStep::Invalid(ProtocolError::UnknownOpCode));
    assert_eq!(read_frame(&[0, 0, 0, 0x10, 0x02]), FrameStep::NeedBytes(9));
    assert_eq!(read_frame(&[0, 0, 0, 0x10, 0x02, 0, 0, 0, 3]), FrameStep::NeedBytes(12));
    assert_eq!(
        read_frame(&[0, 0, 0, 0x10, 0x02, 0, 0, 0, 3, 1, 2, 3]),
        FrameStep::Request(RequestType::QueueStatus, 3)
    );
    assert_eq!(
        read_frame(&[0, 0, 0, 0x10, 0x01, 0, 0, 0, 0]),
        FrameStep::Request(RequestType::FastForward, 0)
    );
}

#[test]
fn frame_cut_short_by_the_end_of_the_connection() {
    assert_eq!(close_frame(&[]), FrameStep::Invalid(ProtocolError::Truncated));
    assert_eq!(close_frame(&[0, 0, 0, 0x10, 0x02]), FrameStep::Invalid(ProtocolError::Truncated));
    assert_eq!(
        close_frame(&[0, 0, 0, 0x10, 0x02, 0, 0, 0, 3, 1, 2]),
        FrameStep::Invalid(ProtocolError::Truncated)
    );
    assert_eq!(
        close_frame(&[0, 0, 0, 0x10, 0x02, 0, 0, 0, 3, 1, 2, 3]),
        FrameStep::Request(RequestType::QueueStatus, 3)
    );
    assert_eq!(close_frame(&[0, 0, 0, 0, 0]), FrameStep::Goodbye);
    assert_eq!(close_frame(&[9, 0, 0, 0, 0]), FrameStep::Invalid(ProtocolError::InvalidVersion));
}

#[test]
fn oversized_frame_closes_the_connection() {
    assert_eq!(
        read_frame(&[0, 0, 0, 0x10, 0x00, 0x7f, 0xff, 0xff, 0xff]),
        FrameStep::Invalid(ProtocolError::TooLong)
    );
    let limit = BUFFER_SIZE_LIMIT.to_be_bytes();
    assert_eq!(BUFFER_SIZE_LIMIT, 20 * (1 << 20));
    assert_eq!(
        read_frame(&[0, 0, 0, 0x10, 0x00, limit[0], limit[1], limit[2], limit[3]]),
        FrameStep::NeedBytes(9 + BUFFER_SIZE_LIMIT as usize)
    );
    let over = (BUFFER_SIZE_LIMIT + 1).to_be_bytes();
    assert_eq!(
        read_frame(&[0, 0, 0, 0x10, 0x00, over[0], over[1], over[2], over[3]]),
        FrameStep::Invalid(ProtocolError::TooLong)
    );
    let body = vec![0u8; BUFFER_SIZE_LIMIT as usize + 1];
    assert_eq!(frame_request(RequestType::EnqueueTrack, &body), Err(ProtocolError::TooLong));
}

#[test]
fn requests_and_answers_are_framed() {
    let body = write(&FastForwardRequest { kind: FastForward::TrackBoundary });
    let frame = frame_request(RequestType::FastForward, &body).unwrap();
    assert_eq!(&frame[..9], &[0, 0, 0, 0x10, 0x01, 0, 0, 0, body.len() as u8]);
    assert_eq!(&frame[9..], &body[..]);
    assert_eq!(
        read_frame(&frame),
        FrameStep::Request(RequestType::FastForward, body.len() as u32)
    );
    match decode_request(RequestType::FastForward, &frame[9..]) {
        Ok(AnyRequest::FastForward(req)) => assert_eq!(req.kind, FastForward::TrackBoundary),
        _ => panic!("the request did not read back"),
    }
    assert!(matches!(
        decode_request(RequestType::QueueStatus, &write(&StatusRequest)),
        Ok(AnyRequest::QueueStatus(_))
    ));
    assert_eq!(
        decode_request(RequestType::EnqueueTrack, &frame[9..]).err(),
        Some(ProtoError::MissingField)
    );
    assert_eq!(
        decode_request(RequestType::ReplaceFallback, &[]).err(),
        Some(ProtoError::Truncated)
    );
    let answer = encode_response(&AnyResponse::EnqueueTrack(Ok(Handle(5)))).unwrap();
    assert_eq!(answer, vec![0x00, 0x85, 0x00, 0x83, 0, 0, 0, 0, 0, 0, 0, 5]);
    let framed = frame_response(&answer).unwrap();
    assert_eq!(&framed[..4], &[0, 0, 0, 12]);
    assert_eq!(&framed[4..], &answer[..]);
    assert_eq!(response_length(&framed), Some(12));
    assert_eq!(response_length(&framed[..3]), None);
    assert_eq!(
        encode_response(&AnyResponse::FastForward(Ok(()))).unwrap(),
        vec![0x00, 0x85, 0x00, 0x80]
    );
    assert_eq!(
        encode_response(&AnyResponse::ReplaceFallback(Err(ReplaceFallbackError::InvalidTrack))).unwrap(),
        vec![0x00, 0x86, 0x00, 0x82, 0, 0, 0, 1]
    );
    assert!(encode_response(&AnyResponse::QueueStatus(Err(StatusError))).is_ok());
}
