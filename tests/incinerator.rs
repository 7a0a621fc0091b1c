use lockfree::channel::{NoRecv, RecvErr};
use lockfree::incinerator::{collect, run_unless_full, GarbageQueue, Incinerator};

#[test]
fn try_force_succeeds_in_single_threaded() {
    let inc = Incinerator::new();
    let mut queue = GarbageQueue::new();
    assert!(inc.try_force(&mut queue));

    const COUNT: usize = 16;

    let mut allocs = Vec::with_capacity(COUNT);

    for i in 0..COUNT {
        allocs.push(Box::new(i));
    }

    inc.pause(|| ());

    for ptr in allocs {
        inc.add(&mut queue, ptr);
    }

    assert!(inc.try_force(&mut queue));
    assert_eq!(queue.len(), 0);
}

#[test]
fn pause_returns_the_result() {
    let inc = Incinerator::new();
    assert_eq!(inc.pause(|| 3 + 4), Some(7));
}

#[test]
fn nothing_is_dropped_during_a_pause() {
    let inc = Incinerator::new();
    let mut queue = GarbageQueue::new();
    let kept = inc.pause(|| {
        let a = inc.add(&mut queue, 1u8);
        let b = inc.add(&mut queue, 2u8);
        let forced = inc.try_force(&mut queue);
        (a, b, forced, queue.len())
    });
    assert_eq!(kept, Some((false, false, false, 2)));
    assert_eq!(queue.len(), 2);
    assert!(inc.add(&mut queue, 3u8));
    assert_eq!(queue.len(), 0);
}

#[test]
fn collection_follows_the_count_read() {
    let inc = Incinerator::new();
    let mut queue = GarbageQueue::new();
    inc.pause(|| {
        assert!(!inc.add(&mut queue, 10u32));
        assert!(!inc.add(&mut queue, 11u32));
    });
    assert_eq!(queue.len(), 2);
    assert!(!collect(&mut queue, 5));
    assert_eq!(queue.len(), 2);
    assert!(collect(&mut queue, 0));
    assert_eq!(queue.len(), 0);
}

#[test]
fn run_unless_full_runs_below_the_maximum() {
    assert_eq!(run_unless_full(0, || 5), Some(5));
    assert_eq!(run_unless_full(usize::MAX - 1, || "x"), Some("x"));
    let mut ran = false;
    assert_eq!(run_unless_full(usize::MAX, || ran = true), None);
    assert!(!ran);
}

#[test]
fn channel_errors() {
    let e = NoRecv { message: 5 };
    assert_eq!(e.message, 5);
    assert_eq!(RecvErr::NoMessage, RecvErr::NoMessage);
    assert_ne!(RecvErr::NoMessage, RecvErr::NoSender);
}
