use lfdeque::{LFQueue, SwapQueue};

#[test]
fn test() {
    let mut q = LFQueue::new(3);

    assert!(q.push(1).is_ok());
    assert!(q.push(2).is_ok());

    let first = q.steal();
    let second = q.steal();
    println!("{:?}", first);
    println!("{:?}", second);
    assert_eq!(first, Some(1));
    assert_eq!(second, Some(2));

    assert_eq!(q.pop(), None);
}

#[test]
fn steals_come_from_the_top() {
    let mut q = LFQueue::new(3);
    assert!(q.push(1).is_ok());
    assert!(q.push(2).is_ok());
    assert_eq!(q.steal(), Some(1));
    assert_eq!(q.steal(), Some(2));
    assert_eq!(q.pop(), None);
}

#[test]
fn pops_come_back_in_reverse_order() {
    let mut q = LFQueue::new(4);
    for v in 1..=10u32 {
        assert!(q.push(v).is_ok());
    }
    for v in (1..=10u32).rev() {
        assert_eq!(q.pop(), Some(v));
    }
    assert_eq!(q.pop(), None);
    assert!(q.is_empty());
}

#[test]
fn interleaved_drain_returns_every_value_once() {
    let mut q = LFQueue::new(2);
    let mut out: Vec<u32> = Vec::new();
    for v in 0..1000u32 {
        assert!(q.push(v).is_ok());
        if v % 3 == 0 {
            if let Some(x) = q.steal() {
                out.push(x);
            }
        }
        if v % 7 == 0 {
            if let Some(x) = q.pop() {
                out.push(x);
            }
        }
    }
    loop {
        match q.steal() {
            Some(x) => out.push(x),
            None => break,
        }
    }
    out.sort();
    let expected: Vec<u32> = (0..1000u32).collect();
    assert_eq!(out, expected);
}

#[test]
fn drained_queue_stays_empty() {
    let mut q = LFQueue::new(1);
    let mut pushed = 0usize;
    let mut taken = 0usize;
    for v in 0..50u64 {
        assert!(q.push(v).is_ok());
        pushed += 1;
    }
    while taken < pushed {
        if q.pop().is_some() {
            taken += 1;
        }
        if q.steal().is_some() {
            taken += 1;
        }
    }
    assert_eq!(taken, 50);
    for _ in 0..100 {
        assert_eq!(q.pop(), None);
        assert_eq!(q.steal(), None);
    }
    assert_eq!(q.len(), 0);
}

#[test]
fn growth_doubles_once_per_crossing() {
    let mut q = LFQueue::new(1);
    assert_eq!(q.capacity(), 1);
    let expected_caps = [1usize, 2, 4, 4, 8, 8, 8, 8, 16];
    for (i, cap) in expected_caps.iter().enumerate() {
        assert!(q.push(i + 1).is_ok());
        assert_eq!(q.capacity(), *cap);
        assert_eq!(q.len(), i + 1);
    }
    for v in 1..=9usize {
        assert_eq!(q.steal(), Some(v));
    }
    assert_eq!(q.steal(), None);
}

#[test]
fn growth_keeps_wrapped_values_in_order() {
    let mut q = LFQueue::new(4);
    for v in [10, 20, 30, 40] {
        assert!(q.push(v).is_ok());
    }
    assert_eq!(q.steal(), Some(10));
    assert_eq!(q.steal(), Some(20));
    assert!(q.push(50).is_ok());
    assert!(q.push(60).is_ok());
    assert_eq!(q.capacity(), 4);
    assert!(q.push(70).is_ok());
    assert_eq!(q.capacity(), 8);
    assert_eq!(q.len(), 5);
    assert_eq!(q.pop(), Some(70));
    for v in [30, 40, 50, 60] {
        assert_eq!(q.steal(), Some(v));
    }
    assert_eq!(q.pop(), None);
}

#[test]
fn try_push_fails_when_full() {
    let mut q = LFQueue::new(2);
    assert_eq!(q.try_push(1), Ok(()));
    assert_eq!(q.try_push(2), Ok(()));
    assert_eq!(q.try_push(3), Err(3));
    assert_eq!(q.capacity(), 2);
    assert_eq!(q.len(), 2);
    assert_eq!(q.pop(), Some(2));
    assert_eq!(q.try_push(4), Ok(()));
    assert_eq!(q.steal(), Some(1));
    assert_eq!(q.steal(), Some(4));
}

#[test]
fn last_value_goes_to_the_owner_once() {
    let mut q = LFQueue::new(1);
    assert!(q.push(7).is_ok());
    assert_eq!(q.pop(), Some(7));
    assert_eq!(q.steal(), None);
    assert_eq!(q.pop(), None);
    assert!(q.push(8).is_ok());
    assert_eq!(q.steal(), Some(8));
    assert_eq!(q.pop(), None);
}

#[test]
fn new_queue_is_empty() {
    let q: LFQueue<u8> = LFQueue::new(5);
    assert_eq!(q.capacity(), 5);
    assert_eq!(q.len(), 0);
    assert!(q.is_empty());
}

#[test]
fn owner_and_stealers_drain_half_a_million_values() {
    let pattern = [1usize, 2, 93, 104, 2044];
    let rounds = 100_000usize;
    let stealers = 7usize;
    let mut q = LFQueue::new(100);
    let mut drained = 0usize;
    let mut sum = 0usize;
    for r in 0..rounds {
        for v in pattern {
            assert!(q.push(v).is_ok());
        }
        // The calls of the stealers and of the owner take effect in turn.
        for s in 0..stealers {
            if (r + s) % 4 == 0 {
                if let Some(v) = q.steal() {
                    drained += 1;
                    sum += v;
                }
            }
        }
        if r % 2 == 0 {
            if let Some(v) = q.pop() {
                drained += 1;
                sum += v;
            }
        }
    }
    loop {
        let a = q.steal();
        let b = q.pop();
        if a.is_none() && b.is_none() {
            break;
        }
        for v in [a, b].into_iter().flatten() {
            drained += 1;
            sum += v;
        }
    }
    assert_eq!(drained, 500_000);
    assert_eq!(sum, 224_400_000);
    assert_eq!(q.pop(), None);
    assert_eq!(q.steal(), None);
}

#[test]
fn swap_queue_starts_with_two_empty_queues() {
    let q: SwapQueue<u32> = SwapQueue::new();
    assert_eq!(q.waiting().capacity(), 10);
    assert_eq!(q.waiting().len(), 0);
    assert!(q.waiting().is_empty());
    assert_eq!(q.active().capacity(), 10);
    assert_eq!(q.active().len(), 0);
    assert!(q.active().is_empty());
}

#[test]
fn pop_right_after_push_gives_the_value_back() {
    let mut q = LFQueue::new(2);
    assert!(q.push(5).is_ok());
    assert!(q.push(6).is_ok());
    assert!(q.push(9).is_ok());
    assert_eq!(q.pop(), Some(9));
    assert_eq!(q.len(), 2);
    assert_eq!(q.steal(), Some(5));
    assert_eq!(q.pop(), Some(6));
    assert_eq!(q.pop(), None);
}
