use rtic_kernel::fifo::Fifo;
use rtic_kernel::pool::SlotPool;
use rtic_kernel::time::Duration;
use rtic_kernel::time::Instant;
use rtic_kernel::timer::NotReady;
use rtic_kernel::timer::TimerQueue;

#[test]
fn fifo_dequeues_in_enqueue_order() {
    let mut q: Fifo<u32> = Fifo::new();
    assert!(q.is_empty());
    q.enqueue(1);
    q.enqueue(2);
    q.enqueue(3);
    assert_eq!(q.len(), 3);
    assert_eq!(q.dequeue(), Some(1));
    assert_eq!(q.dequeue(), Some(2));
    q.enqueue(4);
    assert_eq!(q.dequeue(), Some(3));
    assert_eq!(q.dequeue(), Some(4));
    assert_eq!(q.dequeue(), None);
}

#[test]
fn pool_reserves_in_index_order_and_recycles() {
    let mut p: SlotPool<u32> = SlotPool::new(2);
    assert_eq!(p.try_reserve(10), Some(0));
    assert_eq!(p.try_reserve(20), Some(1));
    assert_eq!(p.try_reserve(30), None);
    assert_eq!(p.take(0), 10);
    // Index 0 went to the back of the free queue and is handed out again.
    assert_eq!(p.try_reserve(30), Some(0));
    assert_eq!(p.take(1), 20);
    assert_eq!(p.take(0), 30);
    assert_eq!(p.try_reserve(40), Some(1));
}

fn nr(instant: u64, marker: u64) -> NotReady {
    NotReady { instant: Instant::new(instant), marker, task: 0, index: 0 }
}

#[test]
fn timer_queue_orders_by_instant_then_marker() {
    let mut tq = TimerQueue::new();
    tq.enqueue(nr(30, 0));
    tq.enqueue(nr(10, 1));
    tq.enqueue(nr(30, 2));
    tq.enqueue(nr(20, 3));
    assert_eq!(tq.len(), 4);
    assert_eq!(tq.pop_due(Instant::new(100)).unwrap().marker, 1);
    assert_eq!(tq.pop_due(Instant::new(100)).unwrap().marker, 3);
    assert_eq!(tq.pop_due(Instant::new(100)).unwrap().marker, 0);
    assert_eq!(tq.pop_due(Instant::new(100)).unwrap().marker, 2);
    assert_eq!(tq.pop_due(Instant::new(100)), None);
}

#[test]
fn timer_queue_pops_only_due_heads() {
    let mut tq = TimerQueue::new();
    tq.enqueue(nr(40, 0));
    tq.enqueue(nr(15, 1));
    assert_eq!(tq.head().unwrap().marker, 1);
    assert_eq!(tq.pop_due(Instant::new(10)), None);
    assert_eq!(tq.pop_due(Instant::new(15)).unwrap().marker, 1);
    assert_eq!(tq.pop_due(Instant::new(15)), None);
    assert_eq!(tq.pop_due(Instant::new(40)).unwrap().marker, 0);
}

#[test]
fn timer_queue_cancels_by_marker_once() {
    let mut tq = TimerQueue::new();
    tq.enqueue(nr(10, 7));
    tq.enqueue(nr(20, 8));
    let got = tq.cancel_marker(8).unwrap();
    assert_eq!(got.instant.ticks, 20);
    assert_eq!(tq.cancel_marker(8), None);
    assert_eq!(tq.len(), 1);
    assert_eq!(tq.cancel_marker(7).unwrap().instant.ticks, 10);
    assert_eq!(tq.len(), 0);
}

#[test]
fn instant_and_duration_algebra() {
    let a = Instant::new(5);
    let b = a.plus(Duration::from_ticks(7));
    assert_eq!(b.ticks, 12);
    assert_eq!(b.duration_since(a).ticks, 7);
    assert!(a.before(b));
    assert!(a.at_or_before(b));
    assert!(a.at_or_before(a));
    assert!(!b.at_or_before(a));
    assert_eq!(Instant::zero().ticks, 0);
}
