use fibers_inotify::error::{
    errno_kind, EACCES, EBADF, EFAULT, EINVAL, EMFILE, ENAMETOOLONG, ENOENT, ENOMEM, ENOSPC,
};
use fibers_inotify::event::HEADER_SIZE;
use fibers_inotify::mask::{os_watch_mask, IN_CREATE, IN_DELETE, IN_IGNORED, IN_MASK_ADD};
use fibers_inotify::{parse_events, ErrorKind, EventQueue, StreamEnd, WatcherEvent};

fn record(wd: i32, mask: u32, cookie: u32, name: &[u8], pad: usize) -> Vec<u8> {
    let mut b = Vec::new();
    b.extend_from_slice(&wd.to_le_bytes());
    b.extend_from_slice(&mask.to_le_bytes());
    b.extend_from_slice(&cookie.to_le_bytes());
    let len = if name.is_empty() && pad == 0 { 0 } else { (name.len() + pad) as u32 };
    b.extend_from_slice(&len.to_le_bytes());
    b.extend_from_slice(name);
    b.extend(std::iter::repeat(0u8).take(pad));
    b
}

#[test]
fn parses_records_in_order_with_names_trimmed() {
    let mut buf = Vec::new();
    buf.extend(record(1, IN_CREATE, 0, b"a", 15));
    buf.extend(record(2, IN_DELETE, 7, b"", 0));
    buf.extend(record(-1, IN_IGNORED, 0, b"longer-name.txt", 1));
    buf.extend(record(3, 0x40, 9, b"\xff\xfe", 14));
    let events = parse_events(&buf).unwrap();
    assert_eq!(events.len(), 4);
    assert_eq!(events[0].wd.0, 1);
    assert_eq!(events[0].mask, IN_CREATE);
    assert_eq!(events[0].name.as_deref(), Some(&b"a"[..]));
    assert_eq!(events[1].wd.0, 2);
    assert_eq!(events[1].cookie, 7);
    assert_eq!(events[1].name, None);
    assert_eq!(events[2].wd.0, -1);
    assert_eq!(events[2].name.as_deref(), Some(&b"longer-name.txt"[..]));
    assert_eq!(events[3].mask, 0x40);
    assert_eq!(events[3].cookie, 9);
    assert_eq!(events[3].name.as_deref(), Some(&b"\xff\xfe"[..]));
}

#[test]
fn empty_buffer_has_no_events() {
    assert_eq!(parse_events(&[]).unwrap().len(), 0);
}

#[test]
fn all_padding_name_is_empty() {
    let buf = record(4, IN_CREATE, 0, b"", 16);
    let events = parse_events(&buf).unwrap();
    assert_eq!(events[0].name.as_deref(), Some(&b""[..]));
}

#[test]
fn short_header_is_other_error() {
    let mut buf = record(1, IN_CREATE, 0, b"a", 3);
    buf.extend_from_slice(&[1, 2, 3]);
    assert_eq!(parse_events(&buf).unwrap_err().kind, ErrorKind::Other);
    assert_eq!(parse_events(&buf[..HEADER_SIZE - 1]).unwrap_err().kind, ErrorKind::Other);
}

#[test]
fn declared_length_past_end_is_other_error() {
    let buf = record(1, IN_CREATE, 0, b"abc", 5);
    assert_eq!(parse_events(&buf[..buf.len() - 1]).unwrap_err().kind, ErrorKind::Other);
}

#[test]
fn malformed_name_is_other_error() {
    let buf = record(1, IN_CREATE, 0, b"abcd", 0);
    assert_eq!(parse_events(&buf).unwrap_err().kind, ErrorKind::Other);
    let buf = record(1, IN_CREATE, 0, b"ab\0cd", 3);
    assert_eq!(parse_events(&buf).unwrap_err().kind, ErrorKind::Other);
}

#[test]
fn queue_hands_out_events_in_arrival_order() {
    let mut q = EventQueue::new();
    assert!(q.is_empty());
    assert!(q.pop().is_none());
    let mut buf = record(5, IN_CREATE, 0, b"a", 3);
    buf.extend(record(5, IN_DELETE, 0, b"a", 3));
    q.refill(&buf).unwrap();
    assert_eq!(q.pop().unwrap().mask, IN_CREATE);
    assert_eq!(q.pop().unwrap().mask, IN_DELETE);
    assert!(q.pop().is_none());
    assert!(q.is_empty());
}

#[test]
fn malformed_read_queues_nothing() {
    let mut q = EventQueue::new();
    let buf = record(1, IN_CREATE, 0, b"abcd", 0);
    assert_eq!(q.refill(&buf).unwrap_err().kind, ErrorKind::Other);
    assert!(q.is_empty());
}

#[test]
fn create_then_delete_of_a_is_reported_with_its_name() {
    let mut buf = record(1, IN_CREATE, 0, b"a", 15);
    buf.extend(record(1, IN_DELETE, 0, b"a", 15));
    let events = parse_events(&buf).unwrap();
    assert!(events[0].mask & IN_CREATE != 0);
    assert_eq!(events[0].name.as_deref(), Some(&b"a"[..]));
    assert!(events[1].mask & IN_DELETE != 0);
    assert_eq!(events[1].name.as_deref(), Some(&b"a"[..]));
    assert!(!WatcherEvent::Notified(events[1].clone()).is_last());
}

#[test]
fn ignored_notification_ends_the_sequence() {
    let buf = record(1, 0x400, 0, b"", 0);
    let mut events = parse_events(&buf).unwrap();
    let buf2 = record(1, IN_IGNORED, 0, b"", 0);
    events.extend(parse_events(&buf2).unwrap());
    assert!(!WatcherEvent::Notified(events[0].clone()).is_last());
    assert!(WatcherEvent::Notified(events[1].clone()).is_last());
    assert!(!WatcherEvent::StartWatching.is_last());
    assert!(!WatcherEvent::RestartWatching.is_last());
}

#[test]
fn mask_add_is_stripped() {
    assert_eq!(os_watch_mask(IN_CREATE | IN_MASK_ADD), IN_CREATE);
    assert_eq!(os_watch_mask(IN_DELETE), IN_DELETE);
}

#[test]
fn errno_kinds() {
    assert_eq!(errno_kind(22), ErrorKind::InvalidInput);
    assert_eq!(errno_kind(13), ErrorKind::InvalidInput);
    assert_eq!(errno_kind(2), ErrorKind::InvalidInput);
    assert_eq!(errno_kind(36), ErrorKind::InvalidInput);
    assert_eq!(errno_kind(24), ErrorKind::ResourceShortage);
    assert_eq!(errno_kind(12), ErrorKind::ResourceShortage);
    assert_eq!(errno_kind(28), ErrorKind::ResourceShortage);
    assert_eq!(errno_kind(1), ErrorKind::Other);
    assert_eq!(errno_kind(11), ErrorKind::Other);
}

#[test]
fn errno_constants_match_libc() {
    assert_eq!(EINVAL, libc::EINVAL);
    assert_eq!(EACCES, libc::EACCES);
    assert_eq!(EBADF, libc::EBADF);
    assert_eq!(EFAULT, libc::EFAULT);
    assert_eq!(ENAMETOOLONG, libc::ENAMETOOLONG);
    assert_eq!(ENOENT, libc::ENOENT);
    assert_eq!(EMFILE, libc::EMFILE);
    assert_eq!(ENOMEM, libc::ENOMEM);
    assert_eq!(ENOSPC, libc::ENOSPC);
}

#[test]
fn stream_ends_after_final_notification_and_stays_ended() {
    let mut end = StreamEnd::new();
    assert!(!end.is_ended());
    end.observe(&WatcherEvent::StartWatching);
    assert!(!end.is_ended());
    let ev = parse_events(&record(1, IN_CREATE, 0, b"a", 3)).unwrap().remove(0);
    end.observe(&WatcherEvent::Notified(ev));
    assert!(!end.is_ended());
    let ev = parse_events(&record(1, IN_IGNORED, 0, b"", 0)).unwrap().remove(0);
    end.observe(&WatcherEvent::Notified(ev));
    assert!(end.is_ended());
    end.observe(&WatcherEvent::RestartWatching);
    assert!(end.is_ended());
}
