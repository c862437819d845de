use rill::attach::{Decoder, Frame, RefuseReason};
use rill::client::{cell_size, ClientCore, CREDIT_WINDOW};
use rill::host::Error;
use rill::look::{background_rgba, cursor_rgba, foreground_rgba, ThemeColors};

fn frames_in(bytes: &[u8]) -> Vec<Frame> {
    Decoder::new().push(bytes).expect("decode")
}

#[test]
fn connecting_queues_attach_then_the_credit_window() {
    let c = ClientCore::connecting().expect("connect");
    assert_eq!(frames_in(&c.outbox()), vec![Frame::attach(1, None), Frame::Credit(CREDIT_WINDOW)]);
    assert_eq!(c.outstanding_credit(), CREDIT_WINDOW as u64);
    assert!(c.alive());
}

#[test]
fn exit_marks_the_pane_dead_and_refuses_input() {
    let mut c = ClientCore::new();
    let bytes = Frame::Exit { status: 3 }.encode().expect("encode");
    let frames = c.decode(&bytes).expect("decode");
    for f in frames {
        assert!(c.on_frame(f).expect("frame").is_none());
    }
    assert!(!c.alive());
    assert_eq!(c.exit_status(), Some(3));
    assert_eq!(c.send_input(b"x"), Err(Error::Dead));
}

#[test]
fn data_goes_to_the_emulator_and_refusal_is_an_error() {
    let mut c = ClientCore::new();
    assert_eq!(c.on_frame(Frame::Data(b"hi".to_vec())).expect("data"), Some(b"hi".to_vec()));
    assert_eq!(
        c.on_frame(Frame::Refused { reason: RefuseReason::AlreadyAttached }),
        Err(Error::Refused)
    );
}

#[test]
fn warm_path_audit_counts_only_control_frames() {
    let mut c = ClientCore::new();
    c.begin_warm_path_audit();
    c.send_input(b"a").expect("data");
    c.grant_credit(5).expect("credit");
    assert_eq!(c.warm_path_violations(), 0);
    c.send(Frame::Resize { cols: 1, rows: 1, px_w: 1, px_h: 1 }).expect("resize");
    let _ = c.on_frame(Frame::ResyncRequest);
    assert_eq!(c.end_warm_path_audit(), 2);
}

#[test]
fn pump_replenishes_what_was_fed_and_the_outbox_drains() {
    let mut c = ClientCore::new();
    c.finish_pump(0).expect("nothing fed");
    assert!(c.outbox().is_empty());
    c.finish_pump(10).expect("fed");
    assert_eq!(c.outstanding_credit(), 10);
    let queued = c.outbox();
    assert_eq!(frames_in(&queued), vec![Frame::Credit(10)]);
    c.written(3);
    assert_eq!(c.outbox(), queued[3..].to_vec());
}

#[test]
fn resize_cell_size_divides_by_at_least_one() {
    assert_eq!(cell_size(80, 24, 800, 480), (10, 20));
    assert_eq!(cell_size(0, 0, 7, 9), (7, 9));
}

#[test]
fn surface_colours_fall_back_to_defaults() {
    assert_eq!(background_rgba(&None), 0x121212ff);
    assert_eq!(foreground_rgba(&None), 0xccccccff);
    assert_eq!(cursor_rgba(&None), 0xd9d9d9ff);
    let c = Some(ThemeColors { background: 1, foreground: 2, cursor: 3, ansi: None, split_divider: None });
    assert_eq!((background_rgba(&c), foreground_rgba(&c), cursor_rgba(&c)), (1, 2, 3));
}
