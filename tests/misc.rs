use aten::error::{again, badf, Error};
use aten::misc::duplex::Duplex;
use aten::stream::ByteStreamBody;
use aten::misc::connect::{socket_status, Outcome, State as ConnectState};
use aten::misc::linger::{Jockey, Linger, State, BUF_SIZE};
use aten::misc::tcp_connect::TcpProgress;
use aten::misc::unix_connect::UnixProgress;
use aten::reactor::{Action, Disk, Popped};
use aten::stream::{blob, dry, queue};

#[test]
fn linger_back_pressure() {
    let mut disk = Disk::new();
    let data: Vec<u8> = (0..(1u32 << 20)).map(|i| (i % 251) as u8).collect();
    let src = blob::Stream::new(&mut disk, data.clone());
    let mut linger = Linger::new(&mut disk, src, Action { uid: 1 });
    while let Popped::TimerExpired(_) = disk.poll() {}
    let done = Action { uid: 2 };
    linger.register_callback(done);
    let mut pipe: Vec<u8> = Vec::new();
    let mut room: usize = 64 * 1024;
    let mut steps = 0;
    loop {
        steps += 1;
        assert!(steps < 1_000_000);
        match linger.jockey(&mut disk) {
            Jockey::Write(from, to) => {
                assert!(to - from <= 10 * 1024);
                assert!(to - from <= BUF_SIZE);
                if room == 0 {
                    linger.wrote(&mut disk, Err(again()));
                    // the reader drains a burst
                    room = 64 * 1024;
                    continue;
                }
                let n = std::cmp::min(room, to - from);
                pipe.extend_from_slice(&linger.bytes(from, from + n));
                room -= n;
                linger.wrote(&mut disk, Ok(n));
            }
            Jockey::Wait => panic!("a blob never asks to wait"),
            Jockey::Finished => break,
        }
    }
    assert_eq!(pipe, data);
    assert!(matches!(linger.poll(), State::Final(Ok(()))));
    assert!(matches!(linger.poll(), State::Stale));
    match disk.poll() {
        Popped::TimerExpired(f) => assert_eq!(f.action, Some(done)),
        other => panic!("unexpected {:?}", other),
    }
}

#[test]
fn linger_write_error_finishes() {
    let mut disk = Disk::new();
    let src = blob::Stream::new(&mut disk, vec![1, 2, 3]);
    let mut linger = Linger::new(&mut disk, src, Action { uid: 1 });
    while let Popped::TimerExpired(_) = disk.poll() {}
    assert_eq!(linger.jockey(&mut disk), Jockey::Write(0, 3));
    linger.wrote(&mut disk, Err(Error::from_raw_os_error(32)));
    assert_eq!(linger.jockey(&mut disk), Jockey::Finished);
    match linger.abort() {
        State::Final(Err(e)) => assert_eq!(e.code, 32),
        other => panic!("unexpected {:?}", other),
    }
    assert!(matches!(linger.poll(), State::Stale));
}

#[test]
fn linger_waits_on_dry_source() {
    let mut disk = Disk::new();
    let src = dry::Stream::new(&mut disk);
    let mut linger = Linger::new(&mut disk, src, Action { uid: 1 });
    while let Popped::TimerExpired(_) = disk.poll() {}
    assert_eq!(linger.jockey(&mut disk), Jockey::Wait);
    assert!(matches!(linger.poll(), State::Busy));
    linger.drift();
    assert!(matches!(linger.poll(), State::Drifting));
    assert!(matches!(linger.abort(), State::Drifting));
    assert!(matches!(linger.poll(), State::Stale));
}

#[test]
fn linger_drift_discards_outcome() {
    let mut disk = Disk::new();
    let mut q: queue::Stream<blob::Stream> = queue::Stream::new(&mut disk);
    q.terminate(&mut disk);
    let mut linger = Linger::new(&mut disk, q, Action { uid: 1 });
    while let Popped::TimerExpired(_) = disk.poll() {}
    linger.register_callback(Action { uid: 3 });
    linger.drift();
    assert_eq!(linger.jockey(&mut disk), Jockey::Finished);
    assert!(matches!(linger.poll(), State::Stale));
    // a drifting drain discards its outcome: the final callback never runs
    assert_eq!(disk.poll(), Popped::InfiniteWait);
}

#[test]
fn linger_drift_after_final_claims_it() {
    let mut disk = Disk::new();
    let src = blob::Stream::new(&mut disk, vec![]);
    let mut linger = Linger::new(&mut disk, src, Action { uid: 1 });
    while let Popped::TimerExpired(_) = disk.poll() {}
    assert_eq!(linger.jockey(&mut disk), Jockey::Finished);
    linger.drift();
    assert!(matches!(linger.poll(), State::Stale));
}

#[test]
fn linger_prod_schedules_jockey() {
    let mut disk = Disk::new();
    let src = blob::Stream::new(&mut disk, vec![1]);
    let jockey = Action { uid: 17 };
    let linger = Linger::new(&mut disk, src, jockey);
    while let Popped::TimerExpired(_) = disk.poll() {}
    linger.prod(&mut disk);
    match disk.poll() {
        Popped::TimerExpired(f) => assert_eq!(f.action, Some(jockey)),
        other => panic!("unexpected {:?}", other),
    }
}

#[test]
fn state_consume_leaves_stale() {
    let mut s = State::Final(Ok(()));
    assert!(matches!(s.consume(), State::Final(Ok(()))));
    assert!(matches!(s, State::Stale));
}

#[test]
fn tcp_progress_in_progress() {
    let mut disk = Disk::new();
    let action = Action { uid: 4 };
    let mut p = TcpProgress::new_in_progress(action);
    assert_eq!(p.take().unwrap_err(), again());
    assert!(p.trigger(&mut disk));
    assert!(!p.trigger(&mut disk));
    match disk.poll() {
        Popped::TimerExpired(f) => assert_eq!(f.action, Some(action)),
        other => panic!("unexpected {:?}", other),
    }
    assert_eq!(disk.poll(), Popped::InfiniteWait);
    assert_eq!(p.take(), Ok(Outcome::CheckSocket));
    assert_eq!(p.take().unwrap_err(), badf());
}

#[test]
fn unix_progress_established() {
    let mut disk = Disk::new();
    let action = Action { uid: 5 };
    let mut p = UnixProgress::new_established(&mut disk, action);
    match disk.poll() {
        Popped::TimerExpired(f) => assert_eq!(f.action, Some(action)),
        other => panic!("unexpected {:?}", other),
    }
    assert!(!p.trigger(&mut disk));
    assert_eq!(p.take(), Ok(Outcome::Connected));
    assert_eq!(p.take().unwrap_err(), badf());
    assert_eq!(ConnectState::Done, ConnectState::Done);
}

#[test]
fn socket_status_maps_errno() {
    assert_eq!(socket_status(0), Ok(()));
    assert_eq!(socket_status(111), Err(Error::from_raw_os_error(111)));
}

#[test]
fn duplex_reads_ingress_and_drains_egress() {
    let mut disk = Disk::new();
    let ingress = blob::Stream::new(&mut disk, vec![1, 2, 3]);
    let first = blob::Stream::new(&mut disk, vec![]);
    let jockey_action = Action { uid: 8 };
    let mut d = Duplex::new(&mut disk, ingress, first, jockey_action);
    let mut buf = [0u8; 8];
    assert_eq!(d.read(&mut disk, &mut buf), Ok(3));
    assert_eq!(&buf[..3], &[1, 2, 3]);
    let egress = blob::Stream::new(&mut disk, vec![9, 8, 7]);
    d.set_egress(&mut disk, egress);
    let mut written = Vec::new();
    loop {
        match d.jockey(&mut disk) {
            Jockey::Write(from, to) => {
                written.extend_from_slice(d.egress_bytes(from, to));
                d.wrote(&mut disk, Ok(to - from));
            }
            Jockey::Wait => panic!("blobs never ask to wait"),
            Jockey::Finished => break,
        }
    }
    assert_eq!(written, vec![9, 8, 7]);
    while let Popped::TimerExpired(_) = disk.poll() {}
    d.notify(&mut disk);
    match disk.poll() {
        Popped::TimerExpired(f) => assert_eq!(f.action, Some(jockey_action)),
        other => panic!("unexpected {:?}", other),
    }
    assert!(matches!(d.abort_egress(), State::Final(Ok(()))));
}

#[test]
fn linger_registers_on_its_source() {
    let mut disk = Disk::new();
    let src = blob::Stream::new(&mut disk, vec![1]);
    let jockey = Action { uid: 21 };
    let _linger = Linger::new(&mut disk, src, jockey);
    match disk.poll() {
        Popped::TimerExpired(f) => assert_eq!(f.action, Some(jockey)),
        other => panic!("unexpected {:?}", other),
    }
}
