use std::collections::VecDeque;
use weblib::channel::{channel, BehindMutex, Taken};

#[derive(PartialEq, Eq, Debug, Clone, Copy)]
struct SomeData<'a> {
    data_str: &'a str,
    data_number: i128,
    data_bool: bool,
    data_vec: &'a [&'a str],
}

#[test]
fn ping_pong() {
    let (tx, mut rx) = channel::<()>();
    drop(tx);
    assert_eq!(rx.recv(), None);

    let (mut tx, mut rx) = channel();
    tx.send(42);
    assert_eq!(rx.recv(), Some(42));

    let somedata = SomeData {
        data_str: "frnersogvjeriosger",
        data_number: 27592479563726957697,
        data_bool: true,
        data_vec: &["tegtesht", "Getsghtrershb", "gtrsgwteht", "Gteshtrsjhrt"],
    };
    let (mut tx, mut rx) = channel();
    tx.send(somedata);
    assert_eq!(rx.recv(), Some(somedata));
}

#[test]
fn closed_channel_stays_closed() {
    let (tx, mut rx) = channel::<u8>();
    drop(tx);
    assert_eq!(rx.recv(), None);
    assert_eq!(rx.recv(), None);
    assert_eq!(rx.recv(), None);
}

#[test]
fn burst_then_drain_keeps_order() {
    let (mut tx, mut rx) = channel();
    for i in 0..100u32 {
        tx.send(i);
    }
    for i in 0..100u32 {
        assert_eq!(rx.recv(), Some(i));
    }
    drop(tx);
    assert_eq!(rx.recv(), None);
}

#[test]
fn interleaved_send_and_recv_keep_order() {
    let (mut tx, mut rx) = channel();
    for i in 0..50u64 {
        tx.send(i * 3);
        assert_eq!(rx.recv(), Some(i * 3));
    }
    drop(tx);
    assert_eq!(rx.recv(), None);
}

#[test]
fn values_sent_before_close_are_still_delivered() {
    let (mut tx, mut rx) = channel();
    tx.send(String::from("a"));
    tx.send(String::from("b"));
    drop(tx);
    assert_eq!(rx.recv(), Some(String::from("a")));
    assert_eq!(rx.recv(), Some(String::from("b")));
    assert_eq!(rx.recv(), None);
}

#[test]
fn clones_keep_channel_open_until_last_drop() {
    let (mut tx1, mut rx) = channel();
    let mut tx2 = tx1.clone();
    let mut tx3 = tx2.clone();
    tx1.send((1u8, 10u32));
    tx2.send((2u8, 20u32));
    tx1.send((1u8, 11u32));
    tx3.send((3u8, 30u32));
    drop(tx1);
    tx2.send((2u8, 21u32));
    drop(tx2);
    assert_eq!(rx.recv(), Some((1, 10)));
    assert_eq!(rx.recv(), Some((2, 20)));
    tx3.send((3u8, 31u32));
    drop(tx3);
    let mut rest = Vec::new();
    while let Some(v) = rx.recv() {
        rest.push(v);
    }
    assert_eq!(rest, vec![(1, 11), (3, 30), (2, 21), (3, 31)]);
    assert_eq!(rx.recv(), None);
}

#[test]
fn take_moves_the_rest_into_the_buffer() {
    let mut state = BehindMutex::default();
    state.enqueue(1u32);
    state.enqueue(2u32);
    state.enqueue(3u32);
    let mut buffer = VecDeque::new();
    assert!(matches!(state.take(&mut buffer), Taken::Value(1)));
    assert_eq!(buffer, VecDeque::from(vec![2, 3]));
    let mut empty = VecDeque::new();
    assert!(matches!(state.take(&mut empty), Taken::Empty));
    assert!(empty.is_empty());
    state.enqueue(4u32);
    let mut single = VecDeque::new();
    assert!(matches!(state.take(&mut single), Taken::Value(4)));
    assert!(single.is_empty());
}

#[test]
fn take_reports_closed_after_last_sender() {
    let mut state = BehindMutex::<u8>::default();
    state.add_sender();
    assert!(!state.remove_sender());
    let mut buffer = VecDeque::new();
    assert!(matches!(state.take(&mut buffer), Taken::Empty));
    assert!(state.remove_sender());
    assert!(matches!(state.take(&mut buffer), Taken::Closed));
    assert!(matches!(state.take(&mut buffer), Taken::Closed));
}
