use embassy_sync::deque::Deque;

#[test]
fn static_new() {
    static V: std::sync::OnceLock<Deque<i32, 4>> = std::sync::OnceLock::new();
    let _v = V.get_or_init(Deque::new);
}

#[test]
fn stack_new() {
    let mut _v: Deque<i32, 4> = Deque::new();
}

#[test]
fn full() {
    let mut v: Deque<i32, 4> = Deque::new();

    v.push_back(0).unwrap();
    v.push_front(1).unwrap();
    v.push_back(2).unwrap();
    v.push_back(3).unwrap();

    assert!(v.push_front(4).is_err());
    assert!(v.push_back(4).is_err());
    assert!(v.is_full());
}

#[test]
fn empty() {
    let mut v: Deque<i32, 4> = Deque::new();
    assert!(v.is_empty());

    v.push_back(0).unwrap();
    assert!(!v.is_empty());

    v.push_front(1).unwrap();
    assert!(!v.is_empty());

    v.pop_front().unwrap();
    v.pop_front().unwrap();

    assert!(v.pop_front().is_none());
    assert!(v.pop_back().is_none());
    assert!(v.is_empty());
}

#[test]
fn front_back() {
    let mut v: Deque<i32, 4> = Deque::new();
    assert_eq!(v.front(), None);
    assert_eq!(v.front_mut(), None);
    assert_eq!(v.back(), None);
    assert_eq!(v.back_mut(), None);

    v.push_back(4).unwrap();
    assert_eq!(v.front(), Some(&4));
    assert_eq!(v.front_mut(), Some(&mut 4));
    assert_eq!(v.back(), Some(&4));
    assert_eq!(v.back_mut(), Some(&mut 4));

    v.push_front(3).unwrap();
    assert_eq!(v.front(), Some(&3));
    assert_eq!(v.front_mut(), Some(&mut 3));
    assert_eq!(v.back(), Some(&4));
    assert_eq!(v.back_mut(), Some(&mut 4));

    v.pop_back().unwrap();
    assert_eq!(v.front(), Some(&3));
    assert_eq!(v.front_mut(), Some(&mut 3));
    assert_eq!(v.back(), Some(&3));
    assert_eq!(v.back_mut(), Some(&mut 3));

    v.pop_front().unwrap();
    assert_eq!(v.front(), None);
    assert_eq!(v.front_mut(), None);
    assert_eq!(v.back(), None);
    assert_eq!(v.back_mut(), None);
}

#[test]
fn iter() {
    let mut v: Deque<i32, 4> = Deque::new();

    v.push_back(0).unwrap();
    v.push_back(1).unwrap();
    v.push_front(2).unwrap();
    v.push_front(3).unwrap();
    v.pop_back().unwrap();
    v.push_front(4).unwrap();

    let mut items = v.iter();

    assert_eq!(items.next(), Some(&4));
    assert_eq!(items.next(), Some(&3));
    assert_eq!(items.next(), Some(&2));
    assert_eq!(items.next(), Some(&0));
    assert_eq!(items.next(), None);
}

#[test]
fn iter_move() {
    let mut v: Deque<i32, 4> = Deque::new();
    v.push_back(0).unwrap();
    v.push_back(1).unwrap();
    v.push_back(2).unwrap();
    v.push_back(3).unwrap();

    let mut items = v.into_iter();

    assert_eq!(items.next(), Some(0));
    assert_eq!(items.next(), Some(1));
    assert_eq!(items.next(), Some(2));
    assert_eq!(items.next(), Some(3));
    assert_eq!(items.next(), None);
}

#[test]
fn push_and_pop() {
    let mut q: Deque<i32, 4> = Deque::new();
    assert_eq!(q.len(), 0);

    assert_eq!(q.pop_front(), None);
    assert_eq!(q.pop_back(), None);
    assert_eq!(q.len(), 0);

    q.push_back(0).unwrap();
    assert_eq!(q.len(), 1);

    assert_eq!(q.pop_back(), Some(0));
    assert_eq!(q.len(), 0);

    q.push_back(0).unwrap();
    q.push_back(1).unwrap();
    q.push_front(2).unwrap();
    q.push_front(3).unwrap();
    assert_eq!(q.len(), 4);

    // deque contains: 3 2 0 1
    assert_eq!(q.pop_front(), Some(3));
    assert_eq!(q.len(), 3);
    assert_eq!(q.pop_front(), Some(2));
    assert_eq!(q.len(), 2);
    assert_eq!(q.pop_back(), Some(1));
    assert_eq!(q.len(), 1);
    assert_eq!(q.pop_front(), Some(0));
    assert_eq!(q.len(), 0);

    // deque is now empty
    assert_eq!(q.pop_front(), None);
    assert_eq!(q.pop_back(), None);
    assert_eq!(q.len(), 0);
}

#[test]
fn clear() {
    let mut q: Deque<i32, 4> = Deque::new();
    assert_eq!(q.len(), 0);

    q.push_back(0).unwrap();
    q.push_back(1).unwrap();
    q.push_back(2).unwrap();
    q.push_back(3).unwrap();
    assert_eq!(q.len(), 4);

    q.clear();
    assert_eq!(q.len(), 0);

    q.push_back(0).unwrap();
    assert_eq!(q.len(), 1);
}

#[test]
fn wraps_around_the_buffer_end() {
    let mut q: Deque<u8, 3> = Deque::new();
    assert_eq!(q.capacity(), 3);
    q.push_back(1).unwrap();
    q.push_back(2).unwrap();
    q.push_back(3).unwrap();
    assert_eq!(q.push_back(9), Err(9));
    assert_eq!(q.pop_front(), Some(1));
    q.push_back(4).unwrap();
    assert_eq!(q.get(0), Some(&2));
    assert_eq!(q.get(2), Some(&4));
    assert_eq!(q.get(3), None);
    if let Some(x) = q.get_mut(1) {
        *x = 30;
    }
    let mut it = q.iter();
    assert_eq!(it.size_hint(), (3, Some(3)));
    assert_eq!(it.next_back(), Some(&4));
    assert_eq!(it.next(), Some(&2));
    assert_eq!(it.next(), Some(&30));
    assert_eq!(it.next(), None);
}

#[test]
fn zero_capacity_deque_is_always_full() {
    let mut q: Deque<u8, 0> = Deque::new();
    assert!(q.is_full());
    assert!(q.is_empty());
    assert_eq!(q.push_front(1), Err(1));
}
