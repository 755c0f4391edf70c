use roxy::blocking_delay_queue::BlockingDelayQueue;

fn now_ms() -> u64 {
    std::time::SystemTime::now()
        .duration_since(std::time::UNIX_EPOCH)
        .unwrap()
        .as_millis() as u64
}

#[test]
fn should_put_and_take_ordered() {
    let mut queue = BlockingDelayQueue::new(2);
    queue.put(1, now_ms());
    queue.put(2, now_ms());

    assert_eq!(1, queue.take());
    assert_eq!(2, queue.take());
    assert_eq!(0, queue.size());
}

#[test]
fn should_put_and_take_delayed_items() {
    let mut queue = BlockingDelayQueue::new(2);
    queue.put(1, now_ms() + 2000);
    queue.put(2, now_ms());

    assert_eq!(2, queue.take());
    assert_eq!(1, queue.take());
    assert_eq!(0, queue.size());
}

#[test]
fn should_put_and_take_delayed_items_1() {
    let mut queue = BlockingDelayQueue::new(2);
    queue.put(1, now_ms() + 2000);

    assert_eq!(1, queue.take());
    assert_eq!(0, queue.size());
}

#[test]
fn take_waits_for_the_ready_instant() {
    let mut queue = BlockingDelayQueue::new(1);
    let before = now_ms();
    queue.put(7, before + 300);
    let got = queue.take();
    let after = now_ms();
    assert_eq!(7, got);
    assert!(after >= before + 250);
}

#[test]
fn offer_refuses_when_full_and_keeps_the_queue() {
    let mut queue = BlockingDelayQueue::new(1);
    let t = now_ms();
    assert!(queue.offer(1, t, 5));
    let before = now_ms();
    assert!(!queue.offer(2, t, 5));
    let waited = now_ms() - before;
    assert!(waited <= 1000);
    assert_eq!(1, queue.size());
    assert_eq!(1, queue.take());
}

#[test]
fn poll_returns_nothing_on_an_empty_queue() {
    let mut queue: BlockingDelayQueue<u8> = BlockingDelayQueue::new(1);
    assert_eq!(None, queue.poll(10));
}

#[test]
fn poll_returns_a_due_item() {
    let mut queue = BlockingDelayQueue::new(2);
    queue.put(3, now_ms());
    assert_eq!(Some(3), queue.poll(10));
    assert_eq!(0, queue.size());
}

#[test]
fn poll_leaves_an_item_due_after_the_bound() {
    let mut queue = BlockingDelayQueue::new(2);
    queue.put(3, now_ms() + 5000);
    assert_eq!(None, queue.poll(10));
    assert_eq!(1, queue.size());
}

#[test]
fn take_inner_refuses_an_item_before_its_instant() {
    let mut queue = BlockingDelayQueue::new(2);
    let t = now_ms();
    queue.put(1, t + 5000);
    assert_eq!(None, queue.take_inner(t));
    assert_eq!(Some(1), queue.take_inner(t + 5000));
}

#[test]
fn take_inner_hands_out_the_earliest_instant_first() {
    let mut queue = BlockingDelayQueue::new(3);
    let t = now_ms();
    queue.put(10, t + 30);
    queue.put(20, t + 10);
    queue.put(30, t + 20);
    assert_eq!(Some(20), queue.take_inner(t + 60));
    assert_eq!(Some(30), queue.take_inner(t + 60));
    assert_eq!(Some(10), queue.take_inner(t + 60));
}
