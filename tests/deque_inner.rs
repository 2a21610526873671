use imperative_list::deque::DoubleLinkListInner;

#[test]
fn test_dequeue_inner_push_front_pop_back() {
    let mut l: DoubleLinkListInner<i32> = DoubleLinkListInner::new();
    (0..1000).into_iter().for_each(|value| {
        l.push_front(value);
    });
    (0..1000).into_iter().for_each(|value| {
        assert_eq!(l.pop_back(), Some(value));
    });
}

#[test]
fn test_dequeue_inner_push_back_pop_front() {
    let mut l: DoubleLinkListInner<i32> = DoubleLinkListInner::new();
    (0..1000).into_iter().for_each(|value| {
        l.push_back(value);
    });
    (0..1000).into_iter().for_each(|value| {
        assert_eq!(l.pop_front(), Some(value));
    });
}

#[test]
fn test_dequeue_inner_push_front_pop_front() {
    let mut l: DoubleLinkListInner<i32> = DoubleLinkListInner::new();
    (0..1000).into_iter().for_each(|value| {
        l.push_front(value);
    });
    (0..1000).into_iter().rev().for_each(|value| {
        assert_eq!(l.pop_front(), Some(value));
    });
}

#[test]
fn test_dequeue_inner_push_back_pop_back() {
    let mut l: DoubleLinkListInner<i32> = DoubleLinkListInner::new();
    (0..1000).into_iter().for_each(|value| {
        l.push_back(value);
    });
    (0..1000).into_iter().rev().for_each(|value| {
        assert_eq!(l.pop_back(), Some(value));
    });
}

#[test]
fn test_dequeue_inner_front() {
    let mut l: DoubleLinkListInner<i32> = DoubleLinkListInner::new();
    l.push_front(11);
    assert_eq!(l.front(), Some(&11_i32))
}

#[test]
fn test_dequeue_inner_front_mut() {
    let mut l: DoubleLinkListInner<i32> = DoubleLinkListInner::new();
    l.push_front(11);
    *(l.front_mut().unwrap()) = 12;
    assert_eq!(l.front(), Some(&12_i32))
}

#[test]
fn test_dequeue_inner_back() {
    let mut l: DoubleLinkListInner<i32> = DoubleLinkListInner::new();
    l.push_back(11);
    assert_eq!(l.back(), Some(&11_i32))
}

#[test]
fn test_dequeue_inner_back_mut() {
    let mut l: DoubleLinkListInner<i32> = DoubleLinkListInner::new();
    l.push_back(11);
    *(l.back_mut().unwrap()) = 12;
    assert_eq!(l.back(), Some(&12_i32))
}

#[test]
fn test_dequeue_inner_is_empty() {
    assert!(DoubleLinkListInner::<bool>::new().is_empty())
}

#[test]
fn test_dequeue_inner_len() {
    let mut l = DoubleLinkListInner::<bool>::new();
    assert_eq!(l.len(), 0);
    l.push_back(false);
    assert_eq!(l.len(), 1);
}
