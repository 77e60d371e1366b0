use embassy_sync::waitqueue::{MultiWaker, WakeHandle};

#[test]
fn registering_a_task_twice_wakes_it_once() {
    let mut reg = MultiWaker::new();
    let s1 = reg.store();
    let s2 = reg.store();
    let w = WakeHandle::new(7);
    reg.update(&s1, &w);
    reg.update(&s1, &w);
    reg.update(&s2, &w);
    assert!(reg.is_registered(&s1));
    assert!(!reg.is_registered(&s2));
    assert_eq!(reg.wake(), vec![w]);
    assert_eq!(reg.wake(), vec![]);
    assert!(!reg.is_registered(&s1));
    reg.remove(s1);
    reg.remove(s2);
}

#[test]
fn wake_hands_out_each_task_in_order() {
    let mut reg = MultiWaker::new();
    let s1 = reg.store();
    let s2 = reg.store();
    reg.update(&s1, &WakeHandle::new(1));
    reg.update(&s2, &WakeHandle::new(2));
    reg.update(&s1, &WakeHandle::new(3));
    assert_eq!(reg.wake(), vec![WakeHandle::new(3), WakeHandle::new(2)]);
    assert!(WakeHandle::new(4).will_wake(&WakeHandle::new(4)));
    assert!(!WakeHandle::new(4).will_wake(&WakeHandle::new(5)));
    reg.remove(s1);
    reg.remove(s2);
}
