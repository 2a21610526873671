use imperative_list::deque::UnsafeDeque;
use std::cell::Cell;
use std::rc::Rc;

#[test]
fn test_dequeue_push_front_pop_back() {
    let mut l: UnsafeDeque<i32> = UnsafeDeque::new();
    (0..1000).into_iter().for_each(|value| {
        l.push_front(value);
    });
    (0..1000).into_iter().for_each(|value| {
        assert_eq!(l.pop_back(), Some(value));
    });
}

#[test]
fn test_dequeue_push_back_pop_front() {
    let mut l: UnsafeDeque<i32> = UnsafeDeque::new();
    (0..1000).into_iter().for_each(|value| {
        l.push_back(value);
    });
    (0..1000).into_iter().for_each(|value| {
        assert_eq!(l.pop_front(), Some(value));
    });
}

#[test]
fn test_dequeue_push_front_pop_front() {
    let mut l: UnsafeDeque<i32> = UnsafeDeque::new();
    (0..1000).into_iter().for_each(|value| {
        l.push_front(value);
    });
    (0..1000).into_iter().rev().for_each(|value| {
        assert_eq!(l.pop_front(), Some(value));
    });
}

#[test]
fn test_dequeue_push_back_pop_back() {
    let mut l: UnsafeDeque<i32> = UnsafeDeque::new();
    (0..1000).into_iter().for_each(|value| {
        l.push_back(value);
    });
    (0..1000).into_iter().rev().for_each(|value| {
        assert_eq!(l.pop_back(), Some(value));
    });
}

#[test]
fn test_dequeue_front() {
    let mut l: UnsafeDeque<i32> = UnsafeDeque::new();
    l.push_front(11);
    assert_eq!(l.front(), Some(&11_i32))
}

#[test]
fn test_dequeue_front_mut() {
    let mut l: UnsafeDeque<i32> = UnsafeDeque::new();
    l.push_front(11);
    *(l.front_mut().unwrap()) = 12;
    assert_eq!(l.front(), Some(&12_i32))
}

#[test]
fn test_dequeue_back() {
    let mut l: UnsafeDeque<i32> = UnsafeDeque::new();
    l.push_back(11);
    assert_eq!(l.back(), Some(&11_i32))
}

#[test]
fn test_dequeue_back_mut() {
    let mut l: UnsafeDeque<i32> = UnsafeDeque::new();
    l.push_back(11);
    *(l.back_mut().unwrap()) = 12;
    assert_eq!(l.back(), Some(&12_i32))
}

#[test]
fn test_dequeue_is_empty() {
    assert!(UnsafeDeque::<bool>::new().is_empty())
}

#[test]
fn test_dequeue_len() {
    let mut l = UnsafeDeque::<bool>::new();
    assert_eq!(l.len(), 0);
    l.push_back(false);
    assert_eq!(l.len(), 1);
}

#[test]
fn deque_front_back_scenario() {
    let mut l: UnsafeDeque<i32> = UnsafeDeque::new();
    l.push_front(1);
    l.push_back(2);
    assert_eq!(l.front(), Some(&1));
    assert_eq!(l.back(), Some(&2));
    assert_eq!(l.len(), 2);
    assert_eq!(l.pop_front(), Some(1));
    assert_eq!(l.front(), Some(&2));
    assert_eq!(l.back(), Some(&2));
    assert_eq!(l.len(), 1);
    assert_eq!(l.pop_back(), Some(2));
    assert!(l.is_empty());
    assert_eq!(l.front(), None);
    assert_eq!(l.back(), None);
}

#[test]
fn deque_last_pop_from_front_clears_both_ends() {
    let mut l: UnsafeDeque<u8> = UnsafeDeque::new();
    l.push_back(3);
    assert_eq!(l.pop_front(), Some(3));
    assert_eq!(l.front(), None);
    assert_eq!(l.back(), None);
    l.push_back(4);
    assert_eq!(l.front(), Some(&4));
    assert_eq!(l.back(), Some(&4));
}

#[test]
fn deque_last_pop_from_back_clears_both_ends() {
    let mut l: UnsafeDeque<u8> = UnsafeDeque::new();
    l.push_front(3);
    assert_eq!(l.pop_back(), Some(3));
    assert_eq!(l.front(), None);
    assert_eq!(l.back(), None);
    l.push_front(4);
    assert_eq!(l.front(), Some(&4));
    assert_eq!(l.back(), Some(&4));
}

#[test]
fn deque_empty_access_is_absent() {
    let mut l: UnsafeDeque<u8> = UnsafeDeque::new();
    assert_eq!(l.pop_front(), None);
    assert_eq!(l.pop_back(), None);
    assert!(l.front_mut().is_none());
    assert!(l.back_mut().is_none());
    assert_eq!(l.len(), 0);
}

#[test]
fn deque_interleaved_operations_keep_order() {
    let mut l: UnsafeDeque<u32> = UnsafeDeque::new();
    l.push_back(1);
    l.push_back(2);
    l.push_front(0);
    l.push_back(3);
    assert_eq!(l.pop_front(), Some(0));
    l.push_front(10);
    assert_eq!(l.pop_back(), Some(3));
    l.push_back(20);
    assert_eq!(l.len(), 4);
    assert_eq!(l.pop_front(), Some(10));
    assert_eq!(l.pop_front(), Some(1));
    assert_eq!(l.pop_back(), Some(20));
    assert_eq!(l.pop_back(), Some(2));
    assert_eq!(l.pop_back(), None);
    assert!(l.is_empty());
}

#[test]
fn deque_pops_from_the_middle_of_the_arena() {
    let mut l: UnsafeDeque<u32> = UnsafeDeque::new();
    for i in 0..50 {
        l.push_back(i);
        l.push_front(100 + i);
    }
    for i in 0..25 {
        assert_eq!(l.pop_back(), Some(49 - i));
        assert_eq!(l.pop_front(), Some(149 - i));
    }
    for i in 0..25 {
        l.push_front(i);
    }
    assert_eq!(l.len(), 75);
    for i in (0..25).rev() {
        assert_eq!(l.pop_front(), Some(i));
    }
    for i in 0..25 {
        assert_eq!(l.pop_front(), Some(124 - i));
    }
    for i in 0..25 {
        assert_eq!(l.pop_front(), Some(i));
    }
    assert!(l.is_empty());
}

#[test]
fn deque_mut_access_leaves_the_rest() {
    let mut l: UnsafeDeque<u32> = UnsafeDeque::new();
    l.push_back(1);
    l.push_back(2);
    l.push_back(3);
    *(l.front_mut().unwrap()) = 10;
    *(l.back_mut().unwrap()) = 30;
    assert_eq!(l.front(), Some(&10));
    assert_eq!(l.back(), Some(&30));
    assert_eq!(l.len(), 3);
    assert_eq!(l.pop_front(), Some(10));
    assert_eq!(l.pop_front(), Some(2));
    assert_eq!(l.pop_front(), Some(30));
}

struct DropCounter(Rc<Cell<usize>>);

impl Drop for DropCounter {
    fn drop(&mut self) {
        self.0.set(self.0.get() + 1);
    }
}

#[test]
fn deque_teardown_releases_every_element_once() {
    let dropped = Rc::new(Cell::new(0));
    let mut l: UnsafeDeque<DropCounter> = UnsafeDeque::new();
    for i in 0..100 {
        if i % 2 == 0 {
            l.push_back(DropCounter(dropped.clone()));
        } else {
            l.push_front(DropCounter(dropped.clone()));
        }
    }
    drop(l.pop_front());
    drop(l.pop_back());
    assert_eq!(dropped.get(), 2);
    drop(l);
    assert_eq!(dropped.get(), 100);
}
