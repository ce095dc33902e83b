use fibers_inotify::mask::{IN_CREATE, IN_IGNORED, IN_MASK_ADD};
use fibers_inotify::{ErrorKind, Event, Notice, Placement, Registry, WatchDecriptor, WatcherEvent};

fn notice(id: u64, placement: Placement) -> Notice {
    Notice { id, placement }
}

fn event(wd: i32, mask: u32) -> Event {
    Event { wd: WatchDecriptor(wd), mask, cookie: 0, name: None }
}

/// Runs one registration against a kernel that answers each add with the next of `answers`.
fn run(reg: &mut Registry, id: u64, answers: &[Result<i32, ErrorKind>]) -> Vec<Notice> {
    reg.register(id, b"/tmp/x".to_vec(), IN_CREATE).unwrap();
    let mut out = Vec::new();
    let mut i = 0;
    while let Some(c) = reg.pending_target() {
        if !reg.is_open(c) {
            reg.channel_opened();
        }
        out = reg.add_done(answers[i]);
        i += 1;
    }
    assert_eq!(i, answers.len());
    out
}

#[test]
fn first_subscription_starts_on_primary_channel() {
    let mut reg = Registry::new();
    let out = run(&mut reg, 0, &[Ok(1)]);
    assert_eq!(out, vec![notice(0, Placement::Started)]);
    assert_eq!(reg.channel_count(), 1);
    assert_eq!(reg.route(0, 1), Some(0));
    assert!(reg.contains(0));
}

#[test]
fn collision_cascades_older_subscription_to_new_channel() {
    let mut reg = Registry::new();
    run(&mut reg, 0, &[Ok(1)]);
    // The kernel hands out the same slot for the same object on the primary channel.
    let out = run(&mut reg, 1, &[Ok(1), Ok(1)]);
    assert_eq!(out, vec![notice(0, Placement::Restarted), notice(1, Placement::Started)]);
    assert_eq!(reg.channel_count(), 2);
    assert_eq!(reg.route(0, 1), Some(1));
    assert_eq!(reg.route(1, 1), Some(0));
    assert_eq!(reg.route_event(0, &event(1, IN_CREATE)).unwrap(), Some(1));
    assert_eq!(reg.route_event(1, &event(1, IN_CREATE)).unwrap(), Some(0));
}

#[test]
fn cascade_ripples_through_every_channel() {
    let mut reg = Registry::new();
    run(&mut reg, 0, &[Ok(1)]);
    run(&mut reg, 1, &[Ok(1), Ok(1)]);
    let out = run(&mut reg, 2, &[Ok(1), Ok(1), Ok(1)]);
    assert_eq!(
        out,
        vec![
            notice(0, Placement::Restarted),
            notice(1, Placement::Restarted),
            notice(2, Placement::Started)
        ]
    );
    assert_eq!(reg.channel_count(), 3);
    assert_eq!(reg.route(0, 1), Some(2));
    assert_eq!(reg.route(1, 1), Some(1));
    assert_eq!(reg.route(2, 1), Some(0));
}

#[test]
fn refused_registration_reports_its_kind() {
    let mut reg = Registry::new();
    let out = run(&mut reg, 0, &[Err(ErrorKind::InvalidInput)]);
    assert_eq!(out, vec![notice(0, Placement::Failed(ErrorKind::InvalidInput))]);
    assert!(!reg.contains(0));
    assert!(WatcherEvent::from_placement(Placement::Failed(ErrorKind::InvalidInput)).is_err());
    assert!(matches!(
        WatcherEvent::from_placement(Placement::Started),
        Ok(WatcherEvent::StartWatching)
    ));
    assert!(matches!(
        WatcherEvent::from_placement(Placement::Restarted),
        Ok(WatcherEvent::RestartWatching)
    ));
}

#[test]
fn displaced_subscription_refused_on_new_channel_is_dropped() {
    let mut reg = Registry::new();
    run(&mut reg, 0, &[Ok(1)]);
    let out = run(&mut reg, 1, &[Ok(1), Err(ErrorKind::ResourceShortage)]);
    assert_eq!(
        out,
        vec![notice(0, Placement::Failed(ErrorKind::ResourceShortage)), notice(1, Placement::Started)]
    );
    assert!(!reg.contains(0));
    assert_eq!(reg.retire_empty_channels(), vec![1]);
    assert!(!reg.is_open(1));
}

#[test]
fn duplicate_identity_is_refused() {
    let mut reg = Registry::new();
    run(&mut reg, 0, &[Ok(1)]);
    let e = reg.register(0, b"/tmp/y".to_vec(), IN_CREATE).unwrap_err();
    assert_eq!(e.kind, ErrorKind::Other);
    assert_eq!(reg.pending_target(), None);
}

#[test]
fn pending_registration_exposes_path_and_kernel_mask() {
    let mut reg = Registry::new();
    reg.register(3, b"/tmp/z".to_vec(), IN_CREATE | IN_MASK_ADD).unwrap();
    assert_eq!(reg.pending_target(), Some(0));
    assert_eq!(reg.pending_path(), &b"/tmp/z".to_vec());
    assert_eq!(reg.pending_mask(), IN_CREATE);
}

#[test]
fn releasing_unknown_or_twice_is_a_no_op() {
    let mut reg = Registry::new();
    assert_eq!(reg.deregister(42), None);
    run(&mut reg, 0, &[Ok(5)]);
    assert_eq!(reg.deregister(0), Some((0, 5)));
    assert_eq!(reg.deregister(0), None);
    assert_eq!(reg.route(0, 5), None);
}

#[test]
fn emptied_secondary_channel_is_retired() {
    let mut reg = Registry::new();
    run(&mut reg, 0, &[Ok(1)]);
    run(&mut reg, 1, &[Ok(1), Ok(1)]);
    assert_eq!(reg.deregister(0), Some((1, 1)));
    assert_eq!(reg.retire_empty_channels(), vec![1]);
    assert!(reg.is_open(0));
    assert!(!reg.is_open(1));
    assert_eq!(reg.deregister(1), Some((0, 1)));
    assert_eq!(reg.retire_empty_channels(), Vec::<usize>::new());
    assert!(reg.is_open(0));
}

#[test]
fn emptied_middle_channel_is_retired_and_others_keep_their_index() {
    let mut reg = Registry::new();
    run(&mut reg, 0, &[Ok(1)]);
    run(&mut reg, 1, &[Ok(1), Ok(1)]);
    run(&mut reg, 2, &[Ok(1), Ok(1), Ok(1)]);
    // Subscriber 1 sits on channel 1, subscriber 0 on channel 2.
    assert_eq!(reg.deregister(1), Some((1, 1)));
    assert_eq!(reg.retire_empty_channels(), vec![1]);
    assert!(!reg.is_open(1));
    assert!(reg.is_open(2));
    assert_eq!(reg.route(2, 1), Some(0));
    assert_eq!(reg.route(0, 1), Some(2));
    // A later cascade opens a descriptor at the vacant index again.
    let out = run(&mut reg, 3, &[Ok(1), Ok(4)]);
    assert_eq!(out, vec![notice(2, Placement::Restarted), notice(3, Placement::Started)]);
    assert!(reg.is_open(1));
    assert_eq!(reg.route(1, 4), Some(2));
    assert_eq!(reg.channel_count(), 3);
}

#[test]
fn channel_with_subscription_is_kept() {
    let mut reg = Registry::new();
    run(&mut reg, 0, &[Ok(1)]);
    run(&mut reg, 1, &[Ok(1), Ok(1)]);
    assert_eq!(reg.deregister(1), Some((0, 1)));
    assert_eq!(reg.retire_empty_channels(), Vec::<usize>::new());
    assert!(reg.is_open(1));
}

#[test]
fn leftover_notifications_of_released_slot_are_dropped() {
    let mut reg = Registry::new();
    run(&mut reg, 0, &[Ok(1)]);
    reg.deregister(0);
    assert_eq!(reg.route_event(0, &event(1, IN_CREATE)).unwrap(), None);
    assert_eq!(reg.route_event(0, &event(1, IN_IGNORED)).unwrap(), None);
    assert_eq!(reg.route_event(0, &event(1, IN_CREATE)).unwrap_err().kind, ErrorKind::Other);
}

#[test]
fn final_notification_ends_the_subscription() {
    let mut reg = Registry::new();
    run(&mut reg, 0, &[Ok(1)]);
    assert_eq!(reg.route_event(0, &event(1, IN_CREATE)).unwrap(), Some(0));
    assert!(reg.contains(0));
    assert_eq!(reg.route_event(0, &event(1, IN_IGNORED)).unwrap(), Some(0));
    assert!(!reg.contains(0));
    assert_eq!(reg.deregister(0), None);
}
