//! Concurrency primitives for cooperative tasks: an intrusive doubly-linked
//! list over a slot table, a multi-waiter wake registrar built on it, a
//! fixed-capacity ring buffer, and a broadcast (publish/subscribe) channel.
pub mod deque;
pub mod intrusive_list;
pub mod pubsub;
pub mod waitqueue;
