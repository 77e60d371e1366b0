use embassy_sync::pubsub::{Pub, PubSubChannel, Sub, WaitResult};
use embassy_sync::waitqueue::WakeHandle;

fn publish<T, const CAP: usize>(p: &Pub, ch: &mut PubSubChannel<T, CAP>, message: T) {
    let mut f = p.publish(message);
    assert!(f.poll(p, ch, &WakeHandle::new(1000)));
}

fn next<T: Clone, const CAP: usize>(s: &mut Sub, ch: &mut PubSubChannel<T, CAP>) -> WaitResult<T> {
    let mut f = s.next_message();
    f.poll(s, ch, &WakeHandle::new(2000)).unwrap()
}

#[test]
fn all_subscribers_receive() {
    let mut channel = PubSubChannel::<u32, 4>::new();

    let mut sub0 = channel.subscriber();
    let mut sub1 = channel.subscriber();
    let pub0 = channel.publisher();

    publish(&pub0, &mut channel, 42);

    assert_eq!(next(&mut sub0, &mut channel), WaitResult::Message(42));
    assert_eq!(next(&mut sub1, &mut channel), WaitResult::Message(42));

    assert_eq!(sub0.try_next_message(&mut channel), None);
    assert_eq!(sub1.try_next_message(&mut channel), None);
}

#[test]
fn lag_when_queue_full_on_immediate_publish() {
    let mut channel = PubSubChannel::<u32, 4>::new();

    let mut sub0 = channel.subscriber();
    let pub0 = channel.publisher();

    pub0.publish_immediate(&mut channel, 42);
    pub0.publish_immediate(&mut channel, 43);
    pub0.publish_immediate(&mut channel, 44);
    pub0.publish_immediate(&mut channel, 45);
    pub0.publish_immediate(&mut channel, 46);
    pub0.publish_immediate(&mut channel, 47);

    assert_eq!(sub0.try_next_message(&mut channel), Some(WaitResult::Lagged(2)));
    assert_eq!(next(&mut sub0, &mut channel), WaitResult::Message(44));
    assert_eq!(next(&mut sub0, &mut channel), WaitResult::Message(45));
    assert_eq!(next(&mut sub0, &mut channel), WaitResult::Message(46));
    assert_eq!(next(&mut sub0, &mut channel), WaitResult::Message(47));
    assert_eq!(sub0.try_next_message(&mut channel), None);
}

#[test]
fn publisher_wait_on_full_queue() {
    let mut channel = PubSubChannel::<u32, 4>::new();

    let pub0 = channel.publisher();

    // There are no subscribers, so the queue will never be full
    assert_eq!(pub0.try_publish(&mut channel, 0), Ok(()));
    assert_eq!(pub0.try_publish(&mut channel, 0), Ok(()));
    assert_eq!(pub0.try_publish(&mut channel, 0), Ok(()));
    assert_eq!(pub0.try_publish(&mut channel, 0), Ok(()));
    assert_eq!(pub0.try_publish(&mut channel, 0), Ok(()));

    let sub0 = channel.subscriber();

    assert_eq!(pub0.try_publish(&mut channel, 0), Ok(()));
    assert_eq!(pub0.try_publish(&mut channel, 0), Ok(()));
    assert_eq!(pub0.try_publish(&mut channel, 0), Ok(()));
    assert_eq!(pub0.try_publish(&mut channel, 0), Ok(()));
    assert_eq!(pub0.try_publish(&mut channel, 0), Err(0));

    sub0.release(&mut channel);
}

#[test]
fn correct_available() {
    let mut channel = PubSubChannel::<u32, 4>::new();

    let sub0 = channel.subscriber();
    let mut sub1 = channel.subscriber();
    let pub0 = channel.publisher();

    assert_eq!(sub0.available(&channel), 0);
    assert_eq!(sub1.available(&channel), 0);

    publish(&pub0, &mut channel, 42);

    assert_eq!(sub0.available(&channel), 1);
    assert_eq!(sub1.available(&channel), 1);

    next(&mut sub1, &mut channel);

    assert_eq!(sub1.available(&channel), 0);

    publish(&pub0, &mut channel, 42);

    assert_eq!(sub0.available(&channel), 2);
    assert_eq!(sub1.available(&channel), 1);
}

#[test]
fn correct_space() {
    let mut channel = PubSubChannel::<u32, 4>::new();

    let mut sub0 = channel.subscriber();
    let mut sub1 = channel.subscriber();
    let pub0 = channel.publisher();

    assert_eq!(pub0.space(&channel), 4);

    publish(&pub0, &mut channel, 42);

    assert_eq!(pub0.space(&channel), 3);

    publish(&pub0, &mut channel, 42);

    assert_eq!(pub0.space(&channel), 2);

    next(&mut sub0, &mut channel);
    next(&mut sub0, &mut channel);

    assert_eq!(pub0.space(&channel), 2);

    next(&mut sub1, &mut channel);
    assert_eq!(pub0.space(&channel), 3);
    next(&mut sub1, &mut channel);
    assert_eq!(pub0.space(&channel), 4);
}

#[test]
fn empty_channel_when_last_subscriber_is_dropped() {
    let mut channel = PubSubChannel::<u32, 4>::new();

    let pub0 = channel.publisher();
    let mut sub0 = channel.subscriber();
    let mut sub1 = channel.subscriber();

    assert_eq!(4, pub0.space(&channel));

    publish(&pub0, &mut channel, 1);
    publish(&pub0, &mut channel, 2);

    assert_eq!(2, channel.space());

    assert_eq!(1, sub0.try_next_message_pure(&mut channel).unwrap());
    assert_eq!(2, sub0.try_next_message_pure(&mut channel).unwrap());

    assert_eq!(2, channel.space());

    sub0.release(&mut channel);

    assert_eq!(2, channel.space());

    assert_eq!(1, sub1.try_next_message_pure(&mut channel).unwrap());

    assert_eq!(3, channel.space());

    sub1.release(&mut channel);

    assert_eq!(4, channel.space());
}

#[derive(Debug)]
struct CloneCallCounter(usize);

impl Clone for CloneCallCounter {
    fn clone(&self) -> Self {
        Self(self.0 + 1)
    }
}

#[test]
fn skip_clone_for_last_message() {
    let mut channel = PubSubChannel::<CloneCallCounter, 1>::new();
    let pub0 = channel.publisher();
    let mut sub0 = channel.subscriber();
    let mut sub1 = channel.subscriber();

    publish(&pub0, &mut channel, CloneCallCounter(0));

    assert_eq!(1, sub0.try_next_message_pure(&mut channel).unwrap().0);
    assert_eq!(0, sub1.try_next_message_pure(&mut channel).unwrap().0);
}

#[test]
fn waiting_publisher_is_woken_when_room_is_made() {
    let mut channel = PubSubChannel::<u32, 1>::new();
    let pub0 = channel.publisher();
    let mut sub0 = channel.subscriber();
    assert_eq!(pub0.try_publish(&mut channel, 1), Ok(()));
    let mut wait = pub0.publish(2);
    assert!(!wait.poll(&pub0, &mut channel, &WakeHandle::new(5)));
    channel.take_wakes();
    assert_eq!(sub0.try_next_message(&mut channel), Some(WaitResult::Message(1)));
    assert_eq!(channel.take_wakes(), vec![WakeHandle::new(5)]);
    assert!(wait.poll(&pub0, &mut channel, &WakeHandle::new(5)));
    assert_eq!(sub0.try_next_message(&mut channel), Some(WaitResult::Message(2)));
    pub0.release(&mut channel);
    sub0.release(&mut channel);
}

#[test]
fn waiting_subscriber_is_woken_by_a_publish() {
    let mut channel = PubSubChannel::<u32, 2>::new();
    let pub0 = channel.publisher();
    let mut sub0 = channel.subscriber();
    let mut wait = sub0.next_message();
    assert_eq!(wait.poll(&mut sub0, &mut channel, &WakeHandle::new(9)), None);
    assert_eq!(pub0.try_publish(&mut channel, 3), Ok(()));
    assert_eq!(channel.take_wakes(), vec![WakeHandle::new(9)]);
    assert_eq!(wait.poll(&mut sub0, &mut channel, &WakeHandle::new(9)), Some(WaitResult::Message(3)));
    assert_eq!(WaitResult::<u32>::Lagged(4).msg_id_incr(), 4);
}

#[test]
fn lagged_subscriber_leaving_frees_the_buffer() {
    let mut channel = PubSubChannel::<u32, 2>::new();
    let pub0 = channel.publisher();
    let sub0 = channel.subscriber();
    pub0.publish_immediate(&mut channel, 1);
    pub0.publish_immediate(&mut channel, 2);
    pub0.publish_immediate(&mut channel, 3);
    assert_eq!(channel.space(), 0);
    sub0.release(&mut channel);
    assert_eq!(channel.space(), 2);
}

#[test]
fn capacity_checks_report_room() {
    let mut channel = PubSubChannel::<u32, 2>::new();
    assert!(channel.can_subscribe());
    assert!(channel.can_add_publisher());
    assert!(channel.can_publish());
    assert!(!channel.has_publishers());
    let pub0 = channel.publisher();
    assert!(channel.has_publishers());
    pub0.release(&mut channel);
    assert!(!channel.has_publishers());
}
