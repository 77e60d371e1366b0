use std::cell::RefCell;

use embassy_sync::intrusive_list::node::NodePtr;
use embassy_sync::intrusive_list::{Cursor, IntrusiveList};

fn values(c: &mut Cursor<u32>) -> Vec<u32> {
    let seen = RefCell::new(Vec::new());
    c.seek_head();
    c.for_each(|_, v| seen.borrow_mut().push(*v));
    seen.into_inner()
}

#[test]
fn insert_tail() {
    let mut list: IntrusiveList<u32> = IntrusiveList::new();

    let v1 = list.new_store(1);
    let v2 = list.new_store(2);
    let v3 = list.new_store(3);
    let v4 = list.new_store(4);

    let mut s = list.cursor();
    s.insert_tail(&v1);
    s.insert_tail(&v2);
    s.insert_tail(&v3);
    s.insert_tail(&v4);

    s.seek(0);
    s.for_each(|idx, v| {
        assert!(idx + 1 == *v as usize);
    });
    assert_eq!(values(&mut s), vec![1, 2, 3, 4]);

    s.seek(0);
    s.remove();

    s.for_each(|idx, v| {
        assert!(idx + 2 == *v as usize);
    });
    assert_eq!(values(&mut s), vec![2, 3, 4]);

    let mut list = s.into_list();
    assert_eq!(v1.release(&mut list), 1);
    assert_eq!(v2.release(&mut list), 2);
    assert_eq!(v3.release(&mut list), 3);
    assert_eq!(v4.release(&mut list), 4);
    assert!(list.is_empty());
}

#[test]
fn seek_lands_on_index_from_any_position() {
    let mut list: IntrusiveList<u32> = IntrusiveList::new();
    let items: Vec<_> = (0..9u32).map(|v| list.new_store(v * 10)).collect();
    let mut c = list.cursor();
    for it in &items {
        c.insert_tail(it);
    }
    for from in 0..9usize {
        for to in 0..9usize {
            c.seek(from);
            assert_eq!(c.index(), from);
            c.seek(to);
            assert_eq!(c.index(), to);
            assert_eq!(c.get(), Some(&(to as u32 * 10)));
        }
    }
    c.seek(100);
    assert_eq!(c.index(), 8);
    assert!(c.is_tail());
    let mut list = c.into_list();
    for it in items {
        it.release(&mut list);
    }
}

#[test]
fn seek_next_and_prev_wrap_around() {
    let mut list: IntrusiveList<u32> = IntrusiveList::new();
    let a = list.new_store(1);
    let b = list.new_store(2);
    let mut c = list.cursor();
    assert_eq!(c.get(), None);
    c.seek_next();
    assert_eq!(c.get(), None);
    c.insert_tail(&a);
    c.insert_tail(&b);
    c.seek_head();
    assert!(c.is_head());
    c.seek_prev();
    assert_eq!(c.get(), Some(&2));
    c.seek_next();
    assert_eq!(c.get(), Some(&1));
    c.seek_tail();
    assert_eq!(c.index(), 1);
    let mut list = c.into_list();
    a.release(&mut list);
    b.release(&mut list);
}

#[test]
fn insert_at_index_and_by_predicate() {
    let mut list: IntrusiveList<u32> = IntrusiveList::new();
    let a = list.new_store(10);
    let b = list.new_store(30);
    let x = list.new_store(20);
    let y = list.new_store(5);
    let z = list.new_store(99);
    let w = list.new_store(40);
    let mut c = list.cursor();
    c.insert(0, &a);
    c.insert(7, &b);
    assert_eq!(values(&mut c), vec![10, 30]);
    c.insert(1, &x);
    assert_eq!(values(&mut c), vec![10, 20, 30]);
    assert_eq!(c.insert_before(&y, |_, cur, new| new < cur), 0);
    assert_eq!(values(&mut c), vec![5, 10, 20, 30]);
    assert_eq!(c.insert_after(&z, |_, _, _| false), 4);
    assert_eq!(values(&mut c), vec![5, 10, 20, 30, 99]);
    assert_eq!(c.insert_after(&w, |_, cur, _| *cur == 30), 4);
    assert_eq!(values(&mut c), vec![5, 10, 20, 30, 40, 99]);
    let mut list = c.into_list();
    for it in [a, b, x, y, z, w] {
        it.release(&mut list);
    }
}

#[test]
fn queries_walk_from_the_position() {
    let mut list: IntrusiveList<u32> = IntrusiveList::new();
    let items: Vec<_> = [3u32, 8, 5, 8].iter().map(|v| list.new_store(*v)).collect();
    let mut c = list.cursor();
    for it in &items {
        c.insert_tail(it);
    }
    c.seek_head();
    assert!(c.any(|_, v| *v == 5));
    c.seek_head();
    assert!(!c.any(|_, v| *v == 7));
    c.seek_head();
    assert!(c.all(|_, v| *v > 2));
    c.seek_head();
    assert_eq!(c.position(|_, v| *v == 8), Some(1));
    c.seek(2);
    assert_eq!(c.position(|_, v| *v == 8), Some(3));
    c.seek_head();
    assert_eq!(c.find(|i, v| if *v == 5 { Some(i * 100) } else { None }), Some(200));
    c.seek(1);
    c.retain(|_, v| *v != 8);
    assert_eq!(values(&mut c), vec![3, 5]);
    let mut list = c.into_list();
    for it in items {
        it.release(&mut list);
    }
}

#[test]
fn released_item_is_no_longer_reached() {
    let mut list: IntrusiveList<u32> = IntrusiveList::new();
    let a = list.new_store(1);
    let b = list.new_store(2);
    let d = list.new_store(3);
    let mut c = list.cursor();
    c.insert_tail(&a);
    c.insert_tail(&b);
    c.insert_tail(&d);
    let mut list = c.into_list();
    assert!(b.is_linked(&list));
    assert_eq!(b.try_borrow_data(&list), None);
    assert_eq!(b.release(&mut list), 2);
    let mut c = list.cursor();
    assert_eq!(values(&mut c), vec![1, 3]);
    let mut list = c.into_list();
    a.remove(&mut list);
    assert!(!a.is_linked(&list));
    assert_eq!(a.try_borrow_data(&list), Some(&1));
    assert_eq!(a.replace(&mut list, 7), 1);
    assert_eq!(*a.get(&list), 7);
    assert_eq!(list.len(), 1);
    a.release(&mut list);
    d.release(&mut list);
    assert!(list.is_empty());
}

#[test]
fn folds_stop_at_the_first_failure() {
    let mut list: IntrusiveList<u32> = IntrusiveList::new();
    let items: Vec<_> = [1u32, 2, 3, 4].iter().map(|v| list.new_store(*v)).collect();
    let mut c = list.cursor();
    for it in &items {
        c.insert_tail(it);
    }
    c.seek_head();
    assert_eq!(c.fold(0u32, |acc, _, v| acc + *v), 10);
    c.seek(2);
    assert_eq!(c.fold(0u32, |acc, i, v| acc + *v * i as u32), 3 * 2 + 4 * 3);
    c.seek_head();
    assert_eq!(c.try_fold(0u32, |acc, _, v| if *v < 3 { Ok(acc + *v) } else { Err(*v) }), Err(3));
    c.seek_head();
    assert_eq!(c.try_fold::<u32, u32, _>(1, |acc, _, v| Ok(acc * *v)), Ok(24));
    c.seek_head();
    assert_eq!(c.try_for_each(|i, _| if i == 2 { Err(i) } else { Ok(()) }), Err(2));
    c.seek_head();
    assert_eq!(c.try_for_each::<(), _>(|_, _| Ok(())), Ok(()));
    let mut list = c.into_list();
    for it in items {
        it.release(&mut list);
    }
}

#[test]
fn released_slots_are_reused_and_cursor_replaces_values() {
    let mut list: IntrusiveList<u32> = IntrusiveList::new();
    let a = list.new_store(1);
    let b = list.new_store(2);
    assert_eq!(a.node(), NodePtr(0));
    assert_eq!(b.node(), NodePtr(1));
    assert_eq!(a.release(&mut list), 1);
    let c = list.new_store(3);
    assert_eq!(c.node(), NodePtr(0));
    assert_eq!(list.slot_count(), 2);

    let mut cur = list.cursor();
    assert_eq!(cur.replace(9), Err(9));
    cur.insert_tail(&b);
    cur.insert_tail(&c);
    cur.seek(1);
    assert_eq!(cur.replace(30), Ok(3));
    assert_eq!(values(&mut cur), vec![2, 30]);
    let mut list = cur.into_list();
    assert_eq!(c.release(&mut list), 30);
    b.release(&mut list);
}
