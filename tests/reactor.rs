use aten::error::{badf, again, inval, is_again, is_inprogress, nospc, proto, time_exceeded, Error};
use aten::reactor::{
    ms_until, Action, Disk, Event, LoopStep, Popped, Timer, MAX_IO_BURST, MAX_IO_STARVATION,
};

fn fired_action(p: Popped) -> Option<Action> {
    match p {
        Popped::TimerExpired(f) => f.action,
        _ => panic!("expected a fired timer, got {:?}", p),
    }
}

#[test]
fn immediate_ordering() {
    let mut disk = Disk::new();
    let x = Action { uid: 1001 };
    let y = Action { uid: 1002 };
    let tx = disk.schedule(0, x);
    let ty = disk.execute(y);
    assert!(tx.uid < ty.uid);
    assert_eq!(fired_action(disk.poll()), Some(x));
    assert_eq!(fired_action(disk.poll()), Some(y));
    assert_eq!(disk.poll(), Popped::InfiniteWait);
}

#[test]
fn immediate_before_later_scheduled() {
    let mut disk = Disk::new();
    let y = Action { uid: 7 };
    let x = Action { uid: 8 };
    disk.execute(y);
    disk.schedule(u64::MAX, x);
    assert_eq!(fired_action(disk.poll()), Some(y));
    match disk.poll() {
        Popped::NextTimerExpiry(t) => assert_eq!(t, u64::MAX),
        other => panic!("unexpected {:?}", other),
    }
}

#[test]
fn timer_tombstone() {
    let mut disk = Disk::new();
    let a = Action { uid: 1 };
    let b = Action { uid: 2 };
    disk.execute(a);
    let tb = disk.execute(b);
    tb.cancel(&mut disk);
    let mut ran = Vec::new();
    loop {
        match disk.take_immediate_action() {
            LoopStep::Perform(f) => ran.push(f.action),
            LoopStep::Wait(ms) => {
                assert_eq!(ms, -1);
                break;
            }
            LoopStep::Quit => panic!("no quit was asked"),
        }
    }
    assert_eq!(ran, vec![Some(a)]);
}

#[test]
fn cancel_is_idempotent_and_removes_scheduled() {
    let mut disk = Disk::new();
    let t = disk.schedule(5, Action { uid: 3 });
    t.cancel(&mut disk);
    t.cancel(&mut disk);
    assert_eq!(disk.poll(), Popped::InfiniteWait);
    let fired = Timer { uid: 999 };
    fired.cancel(&mut disk);
    assert_eq!(disk.poll(), Popped::InfiniteWait);
}

#[test]
fn scheduled_timers_fire_in_key_order() {
    let mut disk = Disk::new();
    let late = Action { uid: 20 };
    let early = Action { uid: 10 };
    let tie_second = Action { uid: 30 };
    disk.schedule(2, late);
    disk.schedule(1, early);
    disk.schedule(2, tie_second);
    // let the clock pass the expiries
    while disk.now() < 3 {}
    assert_eq!(fired_action(disk.poll()), Some(early));
    assert_eq!(fired_action(disk.poll()), Some(late));
    assert_eq!(fired_action(disk.poll()), Some(tie_second));
    assert_eq!(disk.poll(), Popped::InfiniteWait);
}

#[test]
fn starvation_bound() {
    let mut disk = Disk::new();
    for i in 0..25u64 {
        disk.execute(Action { uid: i });
    }
    let mut performed = 0;
    loop {
        match disk.take_immediate_action() {
            LoopStep::Perform(_) => performed += 1,
            LoopStep::Wait(ms) => {
                assert_eq!(ms, 0);
                break;
            }
            LoopStep::Quit => panic!("no quit was asked"),
        }
    }
    assert_eq!(performed, MAX_IO_STARVATION as usize);
    let mut rest = 0;
    while let LoopStep::Perform(_) = disk.take_immediate_action() {
        rest += 1;
    }
    assert_eq!(rest, 5);
}

#[test]
fn quit_ends_the_batch() {
    let mut disk = Disk::new();
    disk.execute(Action { uid: 1 });
    disk.quit();
    assert!(disk.is_quitting());
    assert!(matches!(disk.take_immediate_action(), LoopStep::Perform(_)));
    assert_eq!(disk.take_immediate_action(), LoopStep::Quit);
}

#[test]
fn wake_request_after_schedule() {
    let mut disk = Disk::new();
    assert!(!disk.take_wake_request());
    disk.schedule(10, Action { uid: 1 });
    assert!(disk.take_wake_request());
    assert!(!disk.take_wake_request());
    disk.quit();
    assert!(disk.take_wake_request());
}

#[test]
fn event_edges_coalesce() {
    let mut disk = Disk::new();
    let act = Action { uid: 77 };
    let ev: Event = disk.make_event(act);
    ev.trigger(&mut disk);
    ev.trigger(&mut disk);
    assert_eq!(fired_action(disk.poll()), Some(act));
    assert_eq!(disk.poll(), Popped::InfiniteWait);
}

#[test]
fn event_cancel_drops_delivery() {
    let mut disk = Disk::new();
    let act = Action { uid: 78 };
    let ev = disk.make_event(act);
    ev.cancel(&mut disk);
    assert_eq!(disk.poll(), Popped::InfiniteWait);
    ev.trigger(&mut disk);
    ev.cancel(&mut disk);
    assert_eq!(fired_action(disk.poll()), None);
    assert_eq!(disk.poll(), Popped::InfiniteWait);
}

#[test]
fn event_rearm_after_cancel_has_one_delivery() {
    let mut disk = Disk::new();
    let act = Action { uid: 79 };
    let ev = disk.make_event(act);
    ev.trigger(&mut disk);
    ev.cancel(&mut disk);
    ev.trigger(&mut disk);
    assert_eq!(fired_action(disk.poll()), Some(act));
    assert_eq!(disk.poll(), Popped::InfiniteWait);
    ev.trigger(&mut disk);
    assert_eq!(fired_action(disk.poll()), Some(act));
}

#[test]
fn unknown_event_is_ignored() {
    let mut disk = Disk::new();
    Event { index: 5 }.trigger(&mut disk);
    Event { index: 5 }.cancel(&mut disk);
    assert_eq!(disk.poll(), Popped::InfiniteWait);
}

#[test]
fn registrations_dispatch_ready_descriptors() {
    let mut disk = Disk::new();
    let a = Action { uid: 1 };
    let b = Action { uid: 2 };
    let ra = disk.register(3, a);
    let rb = disk.register(4, b);
    assert_eq!(ra.fd, 3);
    assert_eq!(disk.lookup(4), Some(rb.event));
    assert_eq!(disk.lookup(5), None);
    assert_eq!(disk.dispatch_ready(&vec![4, 5, 3, 4]), 4);
    assert_eq!(fired_action(disk.poll()), Some(b));
    assert_eq!(fired_action(disk.poll()), Some(a));
    assert_eq!(disk.poll(), Popped::InfiniteWait);
    assert!(disk.unregister(3));
    assert!(!disk.unregister(3));
    assert_eq!(disk.lookup(3), None);
    assert_eq!(disk.dispatch_ready(&vec![3]), 1);
    assert_eq!(disk.poll(), Popped::InfiniteWait);
}

#[test]
fn register_again_replaces_action() {
    let mut disk = Disk::new();
    disk.register(3, Action { uid: 1 });
    let r = disk.register(3, Action { uid: 2 });
    assert_eq!(disk.lookup(3), Some(r.event));
    disk.dispatch_ready(&vec![3]);
    assert_eq!(fired_action(disk.poll()), Some(Action { uid: 2 }));
}

#[test]
fn dispatch_burst_is_bounded() {
    let mut disk = Disk::new();
    let ready: Vec<i32> = (0..30).collect();
    assert_eq!(disk.dispatch_ready(&ready), MAX_IO_BURST);
    assert_eq!(disk.dispatch_ready(&vec![1, 2]), 2);
}

#[test]
fn milliseconds_are_rounded_up_and_clamped() {
    assert_eq!(ms_until(0, 0, None), 0);
    assert_eq!(ms_until(10, 5, None), 0);
    assert_eq!(ms_until(0, 1, None), 1);
    assert_eq!(ms_until(0, 1_000_000, None), 1);
    assert_eq!(ms_until(0, 1_500_000, None), 2);
    assert_eq!(ms_until(0, 5_000_000, Some(2_000_000)), 2);
    assert_eq!(ms_until(0, u64::MAX, None), i32::MAX);
}

#[test]
fn in_helpers_add_to_now() {
    let mut disk = Disk::new();
    let t = disk.in_secs(2).unwrap();
    let now = disk.recent();
    assert_eq!(t, now + 2_000_000_000);
    let t = disk.in_millis(3).unwrap();
    assert_eq!(t, disk.recent() + 3_000_000);
    let t = disk.in_micross(4).unwrap();
    assert_eq!(t, disk.recent() + 4_000);
    let t = disk.in_nanos(5).unwrap();
    assert_eq!(t, disk.recent() + 5);
    assert_eq!(disk.in_secs(u64::MAX), None);
    assert_eq!(disk.in_nanos(u64::MAX), None);
}

#[test]
fn error_kinds() {
    assert_eq!(badf().code, 9);
    assert_eq!(again().code, 11);
    assert_eq!(inval().code, 22);
    assert_eq!(nospc().code, 28);
    assert_eq!(time_exceeded().code, 62);
    assert_eq!(proto().code, 71);
    assert!(is_again(&again()));
    assert!(!is_again(&badf()));
    assert!(is_inprogress(&Error::from_raw_os_error(115)));
    assert!(!is_inprogress(&again()));
    assert_eq!(Error::from_raw_os_error(5).raw_os_error(), 5);
}
