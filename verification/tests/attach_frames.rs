use rill::attach::{
    cold_content_socket_path, cold_identity_socket_path, cold_nav_socket_path, worker_file_name, worker_socket_path, Decoder,
    Error, Frame, RefuseReason, Tag, MAX_FRAME, PROTOCOL_VERSION,
};

#[test]
fn t_attach_second_attach_frame_is_refused_payload() {
    let f = Frame::Refused {
        reason: RefuseReason::AlreadyAttached,
    };
    let bytes = f.encode().expect("encode");
    let mut d = Decoder::new();
    let got = d.push(&bytes).expect("decode");
    assert_eq!(
        got,
        vec![Frame::Refused {
            reason: RefuseReason::AlreadyAttached
        }]
    );
}

#[test]
fn t_resize_frame_is_ordered_with_data_on_the_stream() {
    let mut d = Decoder::new();
    let mut stream = Vec::new();
    stream.extend(Frame::Data(b"partial".to_vec()).encode().expect("data"));
    stream.extend(
        Frame::Resize {
            cols: 100,
            rows: 40,
            px_w: 800,
            px_h: 600,
        }
        .encode()
        .expect("resize"),
    );
    stream.extend(Frame::Data(b"more".to_vec()).encode().expect("data2"));
    let got = d.push(&stream).expect("decode");
    assert!(matches!(got[0], Frame::Data(_)));
    assert!(matches!(
        got[1],
        Frame::Resize {
            cols: 100,
            rows: 40,
            ..
        }
    ));
    assert!(matches!(got[2], Frame::Data(_)));
}

#[test]
fn t_exit_frame_decodes_status() {
    let bytes = Frame::Exit { status: 0 }.encode().expect("encode");
    let mut d = Decoder::new();
    let got = d.push(&bytes).expect("decode");
    assert_eq!(got, vec![Frame::Exit { status: 0 }]);
}

#[test]
fn sock_stream_partial_reads_reassemble() {
    let full = Frame::attach(7, None).encode().expect("encode");
    let mut d = Decoder::new();
    assert!(d.push(&full[..3]).expect("p1").is_empty());
    let rest = d.push(&full[3..]).expect("p2");
    assert_eq!(rest, vec![Frame::attach(7, None)]);
}

#[test]
fn no_json_on_the_wire() {
    let bytes = Frame::Data(b"hi".to_vec()).encode().expect("encode");
    assert_ne!(bytes[0], b'{');
    assert_ne!(bytes[0], b'[');
}

#[test]
fn only_data_and_credit_are_warm_path_frames() {
    assert!(Frame::Data(vec![1]).is_warm_path());
    assert!(Frame::Credit(1).is_warm_path());
    assert!(!Frame::attach(1, None).is_warm_path());
    assert!(!Frame::Exit { status: 0 }.is_warm_path());
    assert!(!Frame::Resize {
        cols: 1,
        rows: 1,
        px_w: 1,
        px_h: 1
    }
    .is_warm_path());
    assert!(!Frame::Refused {
        reason: RefuseReason::Invalid
    }
    .is_warm_path());
    assert!(!Frame::Checkpoint {
        ending_offset: 0,
        hash: 0,
        blob: vec![],
    }
    .is_warm_path());
    assert!(!Frame::Delta {
        start_offset: 0,
        bytes: vec![],
    }
    .is_warm_path());
    assert!(!Frame::ResyncRequest.is_warm_path());
}

#[test]
fn unknown_tag_is_a_protocol_error_not_a_skip() {
    let mut d = Decoder::new();
    let err = d
        .push(&[99, 0, 0, 0, 0])
        .expect_err("unknown tag must fail");
    assert!(matches!(err, Error::UnknownTag(99)));
}

#[test]
fn declared_length_beyond_max_frame_is_rejected() {
    let mut d = Decoder::new();
    let mut bytes = vec![Tag::Data.as_u8()];
    bytes.extend_from_slice(&(MAX_FRAME as u32 + 1).to_le_bytes());
    assert!(matches!(d.push(&bytes), Err(Error::TooLarge(_))));
}

#[test]
fn every_split_point_reassembles() {
    let full = Frame::Resize {
        cols: 100,
        rows: 40,
        px_w: 800,
        px_h: 600,
    }
    .encode()
    .expect("encode");
    for split in 0..=full.len() {
        let mut d = Decoder::new();
        let mut got = d.push(&full[..split]).expect("first half");
        got.extend(d.push(&full[split..]).expect("second half"));
        assert_eq!(got.len(), 1, "split at {split} lost or duplicated a frame");
    }
}

#[test]
fn t_attach_eight_byte_payload_is_generation_only() {
    let bytes = Frame::attach(9, None).encode().expect("encode");
    assert_eq!(&bytes[1..5], &8u32.to_le_bytes(), "payload is 8 bytes");
    let mut d = Decoder::new();
    assert_eq!(d.push(&bytes).expect("decode"), vec![Frame::attach(9, None)]);
}

#[test]
fn cold_identity_socket_preserves_the_full_attach_socket_name() {
    let a = cold_identity_socket_path("/tmp/rill-a.sock");
    let b = cold_identity_socket_path("/tmp/rill-a.other");
    assert_eq!(a, "/tmp/rill-a.sock.identity");
    assert_eq!(b, "/tmp/rill-a.other.identity");
    assert_ne!(a, b, "distinct attach sockets need distinct cold sockets");
    let w = worker_socket_path("/tmp/rill-a.sock");
    assert_eq!(w, "/tmp/rill-a.sock.worker");
    assert_ne!(w, a);
    let n = cold_nav_socket_path("/tmp/rill-a.sock");
    assert_eq!(n, "/tmp/rill-a.sock.nav");
    assert_ne!(n, a);
}

#[test]
fn t_attach_sixteen_byte_payload_names_a_session_id() {
    let bytes = Frame::attach(3, Some(42)).encode().expect("encode");
    assert_eq!(&bytes[1..5], &16u32.to_le_bytes(), "named leaf payload is 16 bytes");
    let mut d = Decoder::new();
    assert_eq!(d.push(&bytes).expect("decode"), vec![Frame::attach(3, Some(42))]);
}

#[test]
fn t_attach_eighteen_byte_payload_carries_protocol_and_observe() {
    let f = Frame::Attach {
        generation: 4,
        session_id: Some(7),
        protocol: PROTOCOL_VERSION,
        observe: true,
    };
    let bytes = f.encode().expect("encode");
    assert_eq!(&bytes[1..5], &18u32.to_le_bytes());
    let mut d = Decoder::new();
    assert_eq!(d.push(&bytes).expect("decode"), vec![f]);
}

#[test]
fn content_socket_is_the_attach_name_with_content_appended() {
    assert_eq!(cold_content_socket_path("/tmp/r.sock"), "/tmp/r.sock.content");
}

#[test]
fn worker_socket_of_a_bare_name_and_of_a_root() {
    assert_eq!(worker_socket_path("r.sock"), "r.sock.worker");
    assert_eq!(worker_socket_path("/"), "/");
}

#[test]
fn every_frame_kind_round_trips_through_the_decoder() {
    let frames = vec![
        Frame::Data(vec![0, 1, 2, 0xff]),
        Frame::Credit(4096),
        Frame::Resize { cols: 80, rows: 24, px_w: 0, px_h: 0 },
        Frame::Exit { status: -1 },
        Frame::attach(1, None),
        Frame::attach(2, Some(u64::MAX)),
        Frame::Attach { generation: 3, session_id: Some(5), protocol: 2, observe: true },
        Frame::Refused { reason: RefuseReason::ProtocolMismatch },
        Frame::Checkpoint { ending_offset: 10, hash: 7, blob: vec![9; 5] },
        Frame::Delta { start_offset: 10, bytes: b"abc".to_vec() },
        Frame::ResyncRequest,
    ];
    let mut stream = Vec::new();
    for f in &frames {
        stream.extend(f.encode().expect("encode"));
    }
    let mut d = Decoder::new();
    assert_eq!(d.push(&stream).expect("decode"), frames);
}

#[test]
fn exit_status_is_little_endian_on_the_wire() {
    let bytes = Frame::Exit { status: 258 }.encode().expect("encode");
    assert_eq!(bytes, vec![Tag::Exit.as_u8(), 4, 0, 0, 0, 2, 1, 0, 0]);
}

#[test]
fn short_payload_for_a_fixed_frame_is_truncated() {
    assert!(matches!(Frame::decode(Tag::Credit, &[1, 2]), Err(Error::Truncated)));
}

#[test]
fn unknown_refusal_reason_is_an_error() {
    assert!(matches!(Frame::decode(Tag::Refused, &[200]), Err(Error::UnknownRefuse(200))));
}

#[test]
fn tag_bytes_are_the_wire_numbers() {
    assert_eq!(Tag::Data.as_u8(), 1);
    assert_eq!(Tag::from_u8(6).expect("refused"), Tag::Refused);
    assert!(Tag::from_u8(0).is_err());
}

#[test]
fn a_stream_cut_into_many_chunks_reassembles_in_order() {
    let frames = vec![
        Frame::Data(b"hello".to_vec()),
        Frame::Credit(7),
        Frame::Exit { status: -3 },
        Frame::attach(4, Some(9)),
    ];
    let mut stream = Vec::new();
    for f in &frames {
        stream.extend(f.encode().expect("encode"));
    }
    for step in 1..=stream.len() {
        let mut d = Decoder::new();
        let mut got = Vec::new();
        for chunk in stream.chunks(step) {
            got.extend(d.push(chunk).expect("push"));
        }
        got.extend(d.push(&[]).expect("empty push"));
        assert_eq!(got, frames, "chunks of {step} bytes");
    }
}

#[test]
fn attach_error_messages_name_the_offending_value() {
    assert_eq!(Error::UnknownTag(0x7f).message(), "unknown attach tag 127");
    assert_eq!(Error::UnknownRefuse(0).message(), "unknown refuse reason 0");
    assert_eq!(Error::Truncated.message(), "truncated attach frame");
    assert_eq!(Error::TooLarge(4194305).message(), "attach frame too large (4194305 bytes)");
}

#[test]
fn the_worker_file_name_appends_worker() {
    assert_eq!(worker_file_name("rill-a.sock"), "rill-a.sock.worker");
    assert_eq!(worker_file_name(""), ".worker");
}
