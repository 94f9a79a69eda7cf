use std::rc::Rc;

use yarte_queue::Queue;

#[test]
fn test() {
    let mut q = Queue::new();
    for i in 0..100_000 {
        q.push(i);
    }
    for i in 0..100_000 {
        loop {
            match q.pop() {
                Some(j) if i == j => break,
                Some(_) => panic!(),
                None => {}
            }
        }
    }
    assert!(q.pop().is_none());
}

#[test]
fn test_e() {
    let q = &mut Queue::new();

    for i in 0..100 {
        q.push(i);
    }
    for i in 0..100 {
        loop {
            match q.pop() {
                Some(j) if i == j => break,
                Some(_) => panic!(),
                None => {}
            }
        }
    }
    assert!(q.pop().is_none());
}

#[test]
fn interleaved_producer_and_consumer_see_every_value_in_order() {
    let mut q = Queue::new();
    let mut expected: u32 = 0;
    for i in 0..100_000u32 {
        q.push(i);
        // the consumer polls at an uneven pace
        let polls = (i % 3) as usize;
        for _ in 0..polls {
            match q.pop() {
                Some(j) => {
                    assert_eq!(j, expected);
                    expected += 1;
                }
                None => {}
            }
        }
    }
    while let Some(j) = q.pop() {
        assert_eq!(j, expected);
        expected += 1;
    }
    assert_eq!(expected, 100_000);
    assert!(q.pop().is_none());
}

#[test]
fn fifo_order_of_values_inserted_before_any_removal() {
    let mut q = Queue::new();
    let values = vec![7, -3, 7, 0, 42];
    for v in values.iter() {
        q.push(*v);
    }
    let mut out = Vec::new();
    for _ in 0..values.len() {
        out.push(q.pop().unwrap());
    }
    assert_eq!(out, values);
}

#[test]
fn fresh_queue_is_empty() {
    let mut q: Queue<u8> = Queue::new();
    assert_eq!(q.pop(), None);
}

#[test]
fn drained_queue_stays_empty_until_next_insert() {
    let mut q = Queue::new();
    for i in 0..10 {
        q.push(i);
    }
    for i in 0..10 {
        assert_eq!(q.pop(), Some(i));
    }
    for _ in 0..5 {
        assert_eq!(q.pop(), None);
    }
    q.push(99);
    assert_eq!(q.pop(), Some(99));
    assert_eq!(q.pop(), None);
}

#[test]
fn scenario_insert_remove_interleaved() {
    let mut q = Queue::new();
    q.push(0);
    q.push(1);
    q.push(2);
    assert_eq!(q.pop(), Some(0));
    assert_eq!(q.pop(), Some(1));
    q.push(3);
    assert_eq!(q.pop(), Some(2));
    assert_eq!(q.pop(), Some(3));
    assert_eq!(q.pop(), None);
}

#[test]
fn scenario_repeated_empty_polling() {
    let mut q: Queue<i32> = Queue::new();
    assert_eq!(q.pop(), None);
    assert_eq!(q.pop(), None);
    q.push(5);
    assert_eq!(q.pop(), Some(5));
}

#[test]
fn owned_values_are_moved_through_unchanged() {
    let mut q = Queue::new();
    q.push(String::from("first"));
    q.push(String::new());
    q.push(String::from("third"));
    assert_eq!(q.pop().as_deref(), Some("first"));
    q.push(String::from("fourth"));
    assert_eq!(q.pop().as_deref(), Some(""));
    assert_eq!(q.pop().as_deref(), Some("third"));
    assert_eq!(q.pop().as_deref(), Some("fourth"));
    assert_eq!(q.pop(), None);
}

#[test]
fn released_slots_are_reused_without_mixing_values() {
    let mut q = Queue::new();
    let mut next_in: u64 = 0;
    let mut next_out: u64 = 0;
    for round in 0..1000u64 {
        for _ in 0..(round % 7) {
            q.push(next_in);
            next_in += 1;
        }
        for _ in 0..(round % 5) {
            if let Some(v) = q.pop() {
                assert_eq!(v, next_out);
                next_out += 1;
            }
        }
    }
    while let Some(v) = q.pop() {
        assert_eq!(v, next_out);
        next_out += 1;
    }
    assert_eq!(next_in, next_out);
}

#[test]
fn teardown_releases_every_remaining_value() {
    let token = Rc::new(());
    {
        let mut q = Queue::new();
        for _ in 0..10 {
            q.push(Rc::clone(&token));
        }
        drop(q.pop());
        drop(q.pop());
        assert_eq!(Rc::strong_count(&token), 9);
    }
    assert_eq!(Rc::strong_count(&token), 1);
}

#[test]
fn removed_value_is_released_once_by_its_new_owner() {
    let token = Rc::new(());
    let mut q = Queue::new();
    q.push(Rc::clone(&token));
    let v = q.pop().unwrap();
    assert_eq!(Rc::strong_count(&token), 2);
    drop(v);
    assert_eq!(Rc::strong_count(&token), 1);
    assert!(q.pop().is_none());
    drop(q);
    assert_eq!(Rc::strong_count(&token), 1);
}
