use rill::host::{
    content_reply, content_request, encode_arrow, host_identity_from, parse_content_snapshot, parse_nav_line, wrap_paste, Error,
    RESPONSE_MAX,
};

fn snapshot(include_text: bool) -> Vec<u8> {
    let mut bytes = Vec::new();
    bytes.extend_from_slice(b"RLC1");
    bytes.push(0);
    bytes.extend_from_slice(&1u32.to_be_bytes());
    bytes.push(1);
    bytes.extend_from_slice(&1u64.to_be_bytes());
    bytes.extend_from_slice(&3u16.to_be_bytes());
    bytes.extend_from_slice(&4u32.to_be_bytes());
    bytes.extend_from_slice(b"id1");
    if include_text {
        bytes.extend_from_slice(b"test");
    }
    bytes
}

#[test]
fn content_snapshot_parses_authoritative_item() {
    let bytes = snapshot(true);
    let items = parse_content_snapshot(&bytes).expect("snapshot");
    assert_eq!(items.len(), 1);
    assert_eq!(items[0].event_id, "id1");
    assert_eq!(items[0].text, "test");
}

#[test]
fn content_snapshot_rejects_truncated_item() {
    assert!(parse_content_snapshot(&snapshot(false)).is_err());
}

#[test]
fn content_snapshot_fields_and_refusals() {
    let items = parse_content_snapshot(&snapshot(true)).expect("snapshot");
    assert_eq!(items[0].kind, 1);
    assert_eq!(items[0].sequence, 1);
    let mut trailing = snapshot(true);
    trailing.push(0);
    assert_eq!(parse_content_snapshot(&trailing), Err(Error::InvalidContent));
    let mut bad_status = snapshot(true);
    bad_status[4] = 1;
    assert!(parse_content_snapshot(&bad_status).is_err());
    let mut empty_id = Vec::new();
    empty_id.extend_from_slice(b"RLC1");
    empty_id.push(0);
    empty_id.extend_from_slice(&1u32.to_be_bytes());
    empty_id.push(1);
    empty_id.extend_from_slice(&1u64.to_be_bytes());
    empty_id.extend_from_slice(&0u16.to_be_bytes());
    empty_id.extend_from_slice(&0u32.to_be_bytes());
    assert!(parse_content_snapshot(&empty_id).is_err());
    let mut none = Vec::new();
    none.extend_from_slice(b"RLC1");
    none.push(0);
    none.extend_from_slice(&0u32.to_be_bytes());
    assert_eq!(parse_content_snapshot(&none).expect("empty snapshot").len(), 0);
    let mut too_many = none.clone();
    too_many[8] = 65;
    assert!(parse_content_snapshot(&too_many).is_err());
    let mut bad_utf8 = snapshot(true);
    let n = bad_utf8.len();
    bad_utf8[n - 1] = 0xff;
    assert!(parse_content_snapshot(&bad_utf8).is_err());
}

#[test]
fn content_request_frames_the_submit() {
    let req = content_request(0x0102, b"ls").expect("request");
    assert_eq!(
        req,
        vec![b'R', b'L', b'C', b'1', 2, 0, 0, 0, 0, 0, 0, 1, 2, 0, 0, 0, 2, b'l', b's']
    );
    let big = vec![b'x'; 64 * 1024 + 1];
    assert_eq!(content_request(1, &big), Err(Error::InvalidContent));
}

#[test]
fn content_reply_refuses_oversized_replies() {
    let big = vec![0u8; RESPONSE_MAX + 1];
    assert_eq!(content_reply(&big), Err(Error::InvalidContent));
    assert_eq!(content_reply(&snapshot(true)).expect("reply").len(), 1);
}

#[test]
fn nav_line_reads_the_workspace_row() {
    let nav = parse_nav_line("  ws=3 tabs=4,5 leaves=9\n").expect("nav");
    assert_eq!(nav.workspace_id, 3);
    assert_eq!(nav.tabs, vec![4, 5]);
    assert_eq!(nav.leaves, vec![9]);
    assert!(parse_nav_line("tabs=1").is_none());
    assert!(parse_nav_line("ws=x").is_none());
    let skips = parse_nav_line("ws=+1 tabs=1,,x,2 leaves=").expect("nav");
    assert_eq!(skips.workspace_id, 1);
    assert_eq!(skips.tabs, vec![1, 2]);
    assert!(skips.leaves.is_empty());
    assert!(parse_nav_line("ws=1 ws=nope").is_none());
    assert!(parse_nav_line("ws=18446744073709551616").is_none());
}

#[test]
fn t_host_encodes_application_cursor_keys_from_mode() {
    assert_eq!(encode_arrow(true, b'A'), [0x1b, b'O', b'A']);
    assert_eq!(encode_arrow(false, b'A'), [0x1b, b'[', b'A']);
}

#[test]
fn t_host_wraps_bracketed_paste_from_mode() {
    assert_eq!(wrap_paste(false, b"hi"), b"hi");
    assert_eq!(wrap_paste(true, b"hi"), b"\x1b[200~hi\x1b[201~");
}

#[test]
fn host_identity_reply_names_the_local_kernel_only() {
    assert_eq!(host_identity_from(b"local\n"), Ok("local".to_string()));
    assert_eq!(host_identity_from(b"local\r"), Err(Error::InvalidHostIdentity));
    assert_eq!(host_identity_from(b"remote"), Err(Error::InvalidHostIdentity));
    assert_eq!(host_identity_from(b""), Err(Error::InvalidHostIdentity));
}
