use aten::error::{is_again, Error};
use aten::reactor::{Action, Disk, Popped};
use aten::stream::framing::Phase;
use aten::stream::{
    avid, blob, dry, empty, farewell, naivedecoder, naiveencoder, nice, pacer, queue, reservoir, sub, switch,
    zero, ByteStreamBody,
};

fn read_all<S: ByteStreamBody>(disk: &mut Disk, s: &mut S, chunk: usize) -> (Vec<u8>, Result<usize, Error>) {
    let mut out = Vec::new();
    let mut buf = vec![0u8; chunk];
    for _ in 0..100_000 {
        match s.read(disk, buf.as_mut_slice()) {
            Ok(0) => return (out, Ok(0)),
            Ok(n) => out.extend_from_slice(&buf[..n]),
            Err(e) => return (out, Err(e)),
        }
    }
    panic!("stream did not end");
}

#[test]
fn blob_reads_then_ends() {
    let mut disk = Disk::new();
    let mut b = blob::Stream::new(&mut disk, vec![1, 2, 3, 4, 5]);
    let mut buf = [0u8; 2];
    assert_eq!(b.read(&mut disk, &mut buf), Ok(2));
    assert_eq!(buf, [1, 2]);
    let (rest, end) = read_all(&mut disk, &mut b, 2);
    assert_eq!(rest, vec![3, 4, 5]);
    assert_eq!(end, Ok(0));
    assert_eq!(b.read(&mut disk, &mut buf), Ok(0));
}

#[test]
fn zero_length_reads_are_trivial() {
    let mut disk = Disk::new();
    let mut empty_buf: [u8; 0] = [];
    let mut d = dry::Stream::new(&mut disk);
    assert_eq!(d.read(&mut disk, &mut empty_buf), Ok(0));
    let mut b = blob::Stream::new(&mut disk, vec![9, 9]);
    assert_eq!(b.read(&mut disk, &mut empty_buf), Ok(0));
    let mut one = [0u8; 1];
    assert_eq!(b.read(&mut disk, &mut one), Ok(1));
    assert_eq!(one, [9]);
    let z = zero::Stream::new(&mut disk);
    let mut p = pacer::Stream::new(&mut disk, z, 1000, 1, 10).unwrap();
    assert_eq!(p.read(&mut disk, &mut empty_buf), Ok(0));
    assert_eq!(disk.poll(), Popped::InfiniteWait);
}

#[test]
fn dry_empty_zero() {
    let mut disk = Disk::new();
    let mut buf = [7u8; 4];
    let mut d = dry::Stream::new(&mut disk);
    assert!(is_again(&d.read(&mut disk, &mut buf).unwrap_err()));
    let mut e = empty::Stream::new(&mut disk);
    assert_eq!(e.read(&mut disk, &mut buf), Ok(0));
    assert_eq!(e.read_empty(&mut disk, &mut buf), Ok(0));
    let mut z = zero::Stream::new(&mut disk);
    assert_eq!(z.read(&mut disk, &mut buf), Ok(4));
    assert_eq!(buf, [0, 0, 0, 0]);
}

#[test]
fn register_callback_schedules_it() {
    let mut disk = Disk::new();
    let cb = Action { uid: 42 };
    let mut b = blob::Stream::new(&mut disk, vec![1]);
    b.register_callback(&mut disk, cb);
    match disk.poll() {
        Popped::TimerExpired(f) => assert_eq!(f.action, Some(cb)),
        other => panic!("unexpected {:?}", other),
    }
    b.unregister_callback();
    assert_eq!(disk.poll(), Popped::InfiniteWait);
}

#[test]
fn wrapper_registers_on_wrappee() {
    let mut disk = Disk::new();
    let cb = Action { uid: 43 };
    let inner = blob::Stream::new(&mut disk, vec![1]);
    let mut s = switch::Stream::new(&mut disk, inner);
    s.register_callback(&mut disk, cb);
    let mut count = 0;
    while let Popped::TimerExpired(f) = disk.poll() {
        assert_eq!(f.action, Some(cb));
        count += 1;
    }
    assert!(count >= 1);
}

#[test]
fn queue_composition() {
    let mut disk = Disk::new();
    let mut q = queue::Stream::new(&mut disk);
    let a = blob::Stream::new(&mut disk, b"hello ".to_vec());
    let b = blob::Stream::new(&mut disk, b"world".to_vec());
    q.enqueue(&mut disk, a);
    q.enqueue(&mut disk, b);
    q.terminate(&mut disk);
    let (out, end) = read_all(&mut disk, &mut q, 4);
    assert_eq!(out, b"hello world".to_vec());
    assert_eq!(end, Ok(0));
}

#[test]
fn queue_waits_until_terminated() {
    let mut disk = Disk::new();
    let mut q: queue::Stream<blob::Stream> = queue::Stream::new(&mut disk);
    let mut buf = [0u8; 8];
    assert!(is_again(&q.read(&mut disk, &mut buf).unwrap_err()));
    let a = blob::Stream::new(&mut disk, vec![1, 2]);
    q.enqueue(&mut disk, a);
    assert_eq!(q.read(&mut disk, &mut buf), Ok(2));
    assert!(is_again(&q.read(&mut disk, &mut buf).unwrap_err()));
    let front = blob::Stream::new(&mut disk, vec![0]);
    q.push(&mut disk, front);
    assert_eq!(q.read(&mut disk, &mut buf), Ok(1));
    assert_eq!(buf[0], 0);
    q.terminate(&mut disk);
    assert_eq!(q.read(&mut disk, &mut buf), Ok(0));
}

#[test]
fn queue_latches_error_after_progress() {
    let mut disk = Disk::new();
    let mut q = queue::Stream::new(&mut disk);
    let inner = blob::Stream::new(&mut disk, vec![1, 2, 3]);
    let window = sub::Stream::new(&mut disk, inner, 0, Some(2));
    q.enqueue(&mut disk, window);
    let mut buf = [0u8; 8];
    assert_eq!(q.read(&mut disk, &mut buf), Ok(2));
    assert_eq!(&buf[..2], &[1, 2]);
    assert!(is_again(&q.read(&mut disk, &mut buf).unwrap_err()));
}

#[test]
fn sub_window() {
    let mut disk = Disk::new();
    let data: Vec<u8> = (0..100u8).collect();
    let inner = blob::Stream::new(&mut disk, data.clone());
    let mut s = sub::Stream::new(&mut disk, inner, 10, Some(30));
    let (out, end) = read_all(&mut disk, &mut s, 7);
    assert_eq!(out, data[10..30].to_vec());
    assert_eq!(end, Ok(0));
    let mut rest = match s.remainder() {
        Ok(w) => w,
        Err(_) => panic!("window not exhausted"),
    };
    let mut one = [0u8; 1];
    assert_eq!(rest.read(&mut disk, &mut one), Ok(1));
    assert_eq!(one[0], 30);
}

#[test]
fn sub_without_end_mirrors_wrappee() {
    let mut disk = Disk::new();
    let inner = blob::Stream::new(&mut disk, vec![1, 2, 3, 4]);
    let mut s = sub::Stream::new(&mut disk, inner, 1, None);
    let (out, end) = read_all(&mut disk, &mut s, 16);
    assert_eq!(out, vec![2, 3, 4]);
    assert_eq!(end, Ok(0));
    assert!(s.remainder().is_ok());
}

#[test]
fn sub_remainder_refused_inside_window() {
    let mut disk = Disk::new();
    let inner = blob::Stream::new(&mut disk, vec![1, 2, 3, 4]);
    let s = sub::Stream::new(&mut disk, inner, 0, Some(3));
    assert!(s.remainder().is_err());
}

#[test]
fn switch_swaps_wrappee() {
    let mut disk = Disk::new();
    let a = blob::Stream::new(&mut disk, vec![1, 2]);
    let mut s = switch::Stream::new(&mut disk, a);
    let mut buf = [0u8; 1];
    assert_eq!(s.read(&mut disk, &mut buf), Ok(1));
    let b = blob::Stream::new(&mut disk, vec![7, 8]);
    s.switch(&mut disk, b);
    let (out, _) = read_all(&mut disk, &mut s, 4);
    assert_eq!(out, vec![7, 8]);
}

#[test]
fn nice_yields_after_burst() {
    let mut disk = Disk::new();
    let z = zero::Stream::new(&mut disk);
    let mut n = nice::Stream::new(&mut disk, z, 3);
    let cb = Action { uid: 5 };
    n.register_callback(&mut disk, cb);
    while let Popped::TimerExpired(_) = disk.poll() {}
    let mut buf = [1u8; 3];
    assert_eq!(n.read(&mut disk, &mut buf), Ok(3));
    assert!(is_again(&n.read_nice(&mut disk, &mut buf).unwrap_err()));
    match disk.poll() {
        Popped::TimerExpired(f) => assert_eq!(f.action, Some(cb)),
        other => panic!("unexpected {:?}", other),
    }
    assert_eq!(n.read(&mut disk, &mut buf), Ok(3));
}

#[test]
fn avid_coalesces() {
    let mut disk = Disk::new();
    let mut q = queue::Stream::new(&mut disk);
    for part in [vec![1u8], vec![2, 3], vec![4]] {
        let b = blob::Stream::new(&mut disk, part);
        q.enqueue(&mut disk, b);
    }
    let inner = sub::Stream::new(&mut disk, q, 0, Some(3));
    let mut a = avid::Stream::new(&mut disk, inner);
    let mut buf = [0u8; 8];
    assert_eq!(a.read(&mut disk, &mut buf), Ok(3));
    assert_eq!(&buf[..3], &[1, 2, 3]);
    assert_eq!(a.read(&mut disk, &mut buf), Ok(0));
}

#[test]
fn avid_reports_error_without_progress() {
    let mut disk = Disk::new();
    let d = dry::Stream::new(&mut disk);
    let mut a = avid::Stream::new(&mut disk, d);
    let mut buf = [0u8; 8];
    assert!(is_again(&a.read(&mut disk, &mut buf).unwrap_err()));
}

#[test]
fn naive_framing() {
    let mut disk = Disk::new();
    let src = blob::Stream::new(&mut disk, vec![0x5c, 0x00, 0x41]);
    let mut enc = naiveencoder::Stream::new(&mut disk, src, 0x00, Some(0x5c));
    let (framed, end) = read_all(&mut disk, &mut enc, 3);
    assert_eq!(framed, vec![0x5c, 0x5c, 0x5c, 0x00, 0x41, 0x00]);
    assert_eq!(end, Ok(0));
    let src = blob::Stream::new(&mut disk, framed);
    let mut dec = naivedecoder::Stream::new(&mut disk, src, 0x00, Some(0x5c));
    let (payload, end) = read_all(&mut disk, &mut dec, 64);
    assert_eq!(payload, vec![0x5c, 0x00, 0x41]);
    assert_eq!(end, Ok(0));
    let mut rest = match dec.remainder(&mut disk) {
        Ok(r) => r,
        Err(_) => panic!("terminator not reached"),
    };
    let mut buf = [0u8; 4];
    assert_eq!(rest.read(&mut disk, &mut buf), Ok(0));
}

#[test]
fn decoder_remainder_holds_bytes_after_terminator() {
    let mut disk = Disk::new();
    let src = blob::Stream::new(&mut disk, vec![b'a', b'b', 0, b'x', b'y']);
    let mut dec = naivedecoder::Stream::new(&mut disk, src, 0, None);
    let (payload, end) = read_all(&mut disk, &mut dec, 64);
    assert_eq!(payload, b"ab".to_vec());
    assert_eq!(end, Ok(0));
    let mut rest = match dec.remainder(&mut disk) {
        Ok(r) => r,
        Err(_) => panic!("terminator not reached"),
    };
    let (tail, end) = read_all(&mut disk, &mut rest, 1);
    assert_eq!(tail, b"xy".to_vec());
    assert_eq!(end, Ok(0));
}

#[test]
fn decoder_eof_before_terminator_is_protocol_error() {
    let mut disk = Disk::new();
    let src = blob::Stream::new(&mut disk, vec![1, 2]);
    let mut dec = naivedecoder::Stream::new(&mut disk, src, 0, None);
    let (payload, end) = read_all(&mut disk, &mut dec, 64);
    assert_eq!(payload, vec![1, 2]);
    assert_eq!(end.unwrap_err().code, 71);
    let mut buf = [0u8; 2];
    assert_eq!(dec.read(&mut disk, &mut buf).unwrap_err().code, 71);
    assert!(dec.remainder(&mut disk).is_err());
}

#[test]
fn decoder_handles_escape_split_across_reads() {
    let mut disk = Disk::new();
    let src = blob::Stream::new(&mut disk, vec![0x5c, 0x00, 0x07, 0x00]);
    let mut dec = naivedecoder::Stream::new(&mut disk, src, 0x00, Some(0x5c));
    let (payload, end) = read_all(&mut disk, &mut dec, 1);
    assert_eq!(payload, vec![0x00, 0x07]);
    assert_eq!(end, Ok(0));
}

#[test]
fn framing_round_trip() {
    let payloads: Vec<Vec<u8>> = vec![vec![], vec![0], vec![0x5c], vec![1, 0, 0x5c, 0x5c, 0, 2], (0..=255u8).collect()];
    for p in payloads {
        let mut disk = Disk::new();
        let src = blob::Stream::new(&mut disk, p.clone());
        let enc = naiveencoder::Stream::new(&mut disk, src, 0, Some(0x5c));
        let mut dec = naivedecoder::Stream::new(&mut disk, enc, 0, Some(0x5c));
        let (out, end) = read_all(&mut disk, &mut dec, 5);
        assert_eq!(out, p);
        assert_eq!(end, Ok(0));
        let mut rest = match dec.remainder(&mut disk) {
            Ok(r) => r,
            Err(_) => panic!("terminator not reached"),
        };
        let mut buf = [0u8; 4];
        assert_eq!(rest.read(&mut disk, &mut buf), Ok(0));
    }
    assert_eq!(Phase::Reading, Phase::Reading);
}

#[test]
fn encoder_without_escape_copies() {
    let mut disk = Disk::new();
    let src = blob::Stream::new(&mut disk, vec![1, 2, 3]);
    let mut enc = naiveencoder::Stream::new(&mut disk, src, 9, None);
    let (out, _) = read_all(&mut disk, &mut enc, 2);
    assert_eq!(out, vec![1, 2, 3, 9]);
}

#[test]
fn pacer_rejects_bad_parameters() {
    let mut disk = Disk::new();
    let z = zero::Stream::new(&mut disk);
    assert_eq!(pacer::Stream::new(&mut disk, z, 0, 1, 10).err().unwrap().code, 22);
    let z = zero::Stream::new(&mut disk);
    assert_eq!(pacer::Stream::new(&mut disk, z, 10, 0, 10).err().unwrap().code, 22);
    let z = zero::Stream::new(&mut disk);
    assert_eq!(pacer::Stream::new(&mut disk, z, 10, 5, 4).err().unwrap().code, 22);
}

#[test]
fn pacer_shaping() {
    let mut disk = Disk::new();
    let z = zero::Stream::new(&mut disk);
    let mut p = pacer::Stream::new(&mut disk, z, 1000, 100, 1000).unwrap();
    let start = disk.now();
    let mut total: u64 = 0;
    let mut buf = vec![0u8; 4096];
    loop {
        let now = disk.now();
        if now - start >= 2_500_000_000 {
            break;
        }
        match p.read(&mut disk, buf.as_mut_slice()) {
            Ok(n) => total += n as u64,
            Err(e) => assert!(is_again(&e)),
        }
    }
    assert!(total >= 2400 && total <= 3500, "delivered {}", total);
}

#[test]
fn pacer_schedules_retry() {
    let mut disk = Disk::new();
    let z = zero::Stream::new(&mut disk);
    let mut p = pacer::Stream::new(&mut disk, z, 1000, 100, 1000).unwrap();
    let cb = Action { uid: 9 };
    p.register_callback(&mut disk, cb);
    while let Popped::TimerExpired(_) = disk.poll() {}
    let mut buf = [0u8; 10];
    assert!(is_again(&p.read(&mut disk, &mut buf).unwrap_err()));
    match disk.poll() {
        Popped::NextTimerExpiry(t) => assert!(t > disk.recent()),
        Popped::TimerExpired(f) => assert_eq!(f.action, Some(cb)),
        other => panic!("unexpected {:?}", other),
    }
}

#[test]
fn reservoir_fills_then_serves() {
    let mut disk = Disk::new();
    let data: Vec<u8> = (0..5000u32).map(|i| i as u8).collect();
    let src = blob::Stream::new(&mut disk, data.clone());
    let mut r = reservoir::Stream::new(&mut disk, src, 10_000);
    let (out, end) = read_all(&mut disk, &mut r, 700);
    assert_eq!(out, data);
    assert_eq!(end, Ok(0));
    assert_eq!(r.amount(), 5000);
}

#[test]
fn reservoir_overflow_is_no_space() {
    let mut disk = Disk::new();
    let src = blob::Stream::new(&mut disk, vec![1u8; 5000]);
    let mut r = reservoir::Stream::new(&mut disk, src, 100);
    let mut buf = [0u8; 10];
    assert_eq!(r.read(&mut disk, &mut buf).unwrap_err().code, 28);
    assert!(r.amount() > 100);
}

#[test]
fn farewell_passes_through_and_says_goodbye() {
    let mut disk = Disk::new();
    let src = blob::Stream::new(&mut disk, vec![5, 6]);
    let mut f = farewell::Stream::new(&mut disk, src);
    let bye = Action { uid: 11 };
    f.register_farewell_callback(bye);
    let (out, _) = read_all(&mut disk, &mut f, 1);
    assert_eq!(out, vec![5, 6]);
    let _inner = f.close(&mut disk);
    match disk.poll() {
        Popped::TimerExpired(x) => assert_eq!(x.action, Some(bye)),
        other => panic!("unexpected {:?}", other),
    }
}

#[test]
fn farewell_without_callback_is_silent() {
    let mut disk = Disk::new();
    let src = blob::Stream::new(&mut disk, vec![]);
    let mut f = farewell::Stream::new(&mut disk, src);
    f.register_farewell_callback(Action { uid: 1 });
    f.unregister_farewell_callback();
    let _inner = f.close(&mut disk);
    assert_eq!(disk.poll(), Popped::InfiniteWait);
}

#[test]
fn avid_latches_error_after_progress() {
    let mut disk = Disk::new();
    let src = blob::Stream::new(&mut disk, vec![1, 2]);
    let dec = naivedecoder::Stream::new(&mut disk, src, 0, None);
    let mut a = avid::Stream::new(&mut disk, dec);
    let mut buf = [0u8; 8];
    assert_eq!(a.read(&mut disk, &mut buf), Ok(2));
    assert_eq!(&buf[..2], &[1, 2]);
    assert_eq!(a.read(&mut disk, &mut buf).unwrap_err().code, 71);
}

#[test]
fn queue_serves_blobs_in_one_read() {
    let mut disk = Disk::new();
    let mut q = queue::Stream::new(&mut disk);
    let a = blob::Stream::new(&mut disk, vec![1, 2]);
    let b = blob::Stream::new(&mut disk, vec![3]);
    q.enqueue(&mut disk, a);
    q.enqueue(&mut disk, b);
    q.terminate(&mut disk);
    let mut buf = [0u8; 8];
    assert_eq!(q.read(&mut disk, &mut buf), Ok(3));
    assert_eq!(&buf[..3], &[1, 2, 3]);
    assert_eq!(q.read(&mut disk, &mut buf), Ok(0));
    assert_eq!(q.read(&mut disk, &mut buf), Ok(0));
}

#[test]
fn pacer_accepts_any_well_formed_bursts() {
    let mut disk = Disk::new();
    let z = zero::Stream::new(&mut disk);
    assert!(pacer::Stream::new(&mut disk, z, 1, 1, u64::MAX).is_ok());
}

#[test]
fn queue_byte_sink_enqueues_blobs() {
    let mut disk = Disk::new();
    let mut q: queue::Stream<blob::Stream> = queue::Stream::new(&mut disk);
    assert_eq!(q.write(&mut disk, b"ab".to_vec()), 2);
    assert_eq!(q.write(&mut disk, b"c".to_vec()), 1);
    q.terminate(&mut disk);
    let (out, end) = read_all(&mut disk, &mut q, 8);
    assert_eq!(out, b"abc".to_vec());
    assert_eq!(end, Ok(0));
}
